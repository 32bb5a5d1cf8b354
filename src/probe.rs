//! What is reported for one probe of one artifact.
use vstd::prelude::*;
use vstd::string::StringExecFns;
use crate::artifact::{label_of, Version};
use crate::conformance::{
    anomalies_of,
    check_headers,
    headers_view,
    lowered,
    message_of,
    AnomalyView,
    HeaderSpec,
    HeaderSpecView,
    HeaderView,
    ObservedHeader,
};

verus! {

/// The result of fetching the headers of one artifact's download.
#[derive(Clone, Debug, PartialEq, Eq)]
pub enum ProbeOutcome {
    /// The response arrived, with these headers.
    Success(Vec<ObservedHeader>),
    /// The fetch failed, for the reason given.
    Failure(String),
}

/// The mathematical content of a [`ProbeOutcome`].
pub enum OutcomeView {
    Success(Seq<HeaderView>),
    Failure(Seq<char>),
}

impl View for ProbeOutcome {
    type V = OutcomeView;

    open spec fn view(&self) -> OutcomeView {
        match self {
            ProbeOutcome::Success(hs) => OutcomeView::Success(headers_view(hs@)),
            ProbeOutcome::Failure(e) => OutcomeView::Failure(e@),
        }
    }
}

/// A report line: the artifact's label, a colon, and the text.
pub open spec fn line_of(label: Seq<char>, text: Seq<char>) -> Seq<char> {
    label + ": "@ + text
}

/// The lines reported for one probe of the artifact `name` at `vers`: one
/// per anomaly of a response, in the checker's order, or one that gives the
/// reason of a failed fetch.
pub open spec fn report_of(
    name: Seq<char>,
    vers: Seq<char>,
    spec: HeaderSpecView,
    outcome: OutcomeView,
) -> Seq<Seq<char>> {
    match outcome {
        OutcomeView::Success(obs) => anomalies_of(spec, lowered(obs)).map_values(
            |a: AnomalyView| line_of(label_of(name, vers), message_of(a)),
        ),
        OutcomeView::Failure(e) => seq![line_of(label_of(name, vers), e)],
    }
}

fn line(label: &String, text: &String) -> (r: String)
    ensures
        r@ == line_of(label@, text@),
{
    let mut r = label.clone();
    r.append(": ");
    r.append(text.as_str());
    r
}

/// The lines to report for one probe of `version` under `spec`.
pub fn probe_report(version: &Version, spec: &HeaderSpec, outcome: &ProbeOutcome) -> (r: Vec<
    String,
>)
    ensures
        r.deep_view() == report_of(version.name@, version.vers@, spec@, outcome@),
{
    let label = version.label();
    match outcome {
        ProbeOutcome::Success(observed) => {
            let anomalies = check_headers(spec, observed);
            let ghost want = report_of(version.name@, version.vers@, spec@, outcome@);
            let mut r: Vec<String> = Vec::new();
            let mut i: usize = 0;
            while i < anomalies.len()
                invariant
                    i <= anomalies.len(),
                    label@ == label_of(version.name@, version.vers@),
                    anomalies@.map_values(|x: crate::conformance::Anomaly| x@) == anomalies_of(
                        spec@,
                        lowered(headers_view(observed@)),
                    ),
                    want == report_of(version.name@, version.vers@, spec@, outcome@),
                    outcome@ == OutcomeView::Success(headers_view(observed@)),
                    r@.len() == i,
                    r.deep_view() == want.take(i as int),
                decreases anomalies.len() - i,
            {
                let msg = anomalies[i].message();
                let l = line(&label, &msg);
                let ghost av = anomalies_of(spec@, lowered(headers_view(observed@)));
                assert(av[i as int] == anomalies@[i as int]@);
                assert(want[i as int] == line_of(label@, message_of(av[i as int])));
                r.push(l);
                assert(r.deep_view()[i as int] == l@);
                assert(r.deep_view() =~= want.take(i + 1));
                i = i + 1;
            }
            assert(want.take(i as int) =~= want);
            r
        },
        ProbeOutcome::Failure(e) => {
            let l = line(&label, e);
            let r = vec![l];
            assert(r.deep_view() =~= report_of(version.name@, version.vers@, spec@, outcome@));
            r
        },
    }
}

/// One probe of a run, as the report sees it: the artifact's name and
/// version, and the outcome of its fetch.
pub type ProbeView = (Seq<char>, Seq<char>, OutcomeView);

/// The lines of a run that completed the probes `items` in this order.
pub open spec fn run_lines(spec: HeaderSpecView, items: Seq<ProbeView>) -> Seq<Seq<char>>
    decreases items.len(),
{
    if items.len() == 0 {
        seq![]
    } else {
        run_lines(spec, items.drop_last()) + report_of(
            items.last().0,
            items.last().1,
            spec,
            items.last().2,
        )
    }
}

proof fn lemma_run_lines_remove(spec: HeaderSpecView, items: Seq<ProbeView>, j: int)
    requires
        0 <= j < items.len(),
    ensures
        run_lines(spec, items).to_multiset() == run_lines(spec, items.remove(j)).to_multiset().add(
            report_of(items[j].0, items[j].1, spec, items[j].2).to_multiset(),
        ),
    decreases items.len(),
{
    broadcast use vstd::seq_lib::lemma_multiset_commutative;

    let init = items.drop_last();
    let last = items.last();
    if j == items.len() - 1 {
        assert(items.remove(j) =~= init);
    } else {
        lemma_run_lines_remove(spec, init, j);
        assert(items.remove(j).drop_last() =~= init.remove(j));
        assert(items.remove(j).last() == last);
        assert(init[j] == items[j]);
        let a = run_lines(spec, init.remove(j)).to_multiset();
        let b = report_of(items[j].0, items[j].1, spec, items[j].2).to_multiset();
        let c = report_of(last.0, last.1, spec, last.2).to_multiset();
        assert(a.add(b).add(c) =~= a.add(c).add(b));
    }
}

/// The lines of a run do not depend on the order in which its probes
/// complete: two runs over the same probes with the same outcomes, in any
/// two orders (as a single worker and as many workers would complete them),
/// report the same lines, each as often.
pub proof fn lemma_run_order_irrelevant(
    spec: HeaderSpecView,
    first: Seq<ProbeView>,
    second: Seq<ProbeView>,
)
    requires
        first.to_multiset() == second.to_multiset(),
    ensures
        run_lines(spec, first).to_multiset() == run_lines(spec, second).to_multiset(),
    decreases first.len(),
{
    broadcast use vstd::seq_lib::group_to_multiset_ensures;
    broadcast use vstd::seq_lib::lemma_multiset_commutative;

    if first.len() == 0 {
        assert(first.to_multiset().len() == 0);
        assert(second.to_multiset().len() == 0);
        assert(second =~= Seq::<ProbeView>::empty());
    } else {
        let init = first.drop_last();
        let x = first.last();
        assert(init.push(x) =~= first);
        assert(first.to_multiset().count(x) > 0);
        assert(second.to_multiset().count(x) > 0);
        assert(second.contains(x));
        let j = choose|j: int| 0 <= j < second.len() && second[j] == x;
        assert(second.remove(j).to_multiset() =~= init.to_multiset());
        lemma_run_order_irrelevant(spec, init, second.remove(j));
        lemma_run_lines_remove(spec, second, j);
    }
}

} // verus!
