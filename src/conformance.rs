//! The header conformance check: one observed response against the
//! expected header shape.
use vstd::prelude::*;
use vstd::string::{StrSliceExecFns, StringExecFns};

verus! {

/// A header as the checks see it: its name, and its value where that value
/// is text (`None` where it is not).
pub type HeaderView = (Seq<char>, Option<Seq<char>>);

/// One header of an observed response.
#[derive(Clone, Debug, PartialEq, Eq)]
pub struct ObservedHeader {
    pub name: String,
    /// The value as text; `None` where the value does not decode as text.
    pub value: Option<String>,
}

impl ObservedHeader {
    pub open spec fn view(&self) -> HeaderView {
        (self.name@, opt_view(self.value))
    }
}

pub open spec fn opt_view(o: Option<String>) -> Option<Seq<char>> {
    match o {
        Some(s) => Some(s@),
        None => None,
    }
}

/// The views of a sequence of observed headers.
pub open spec fn headers_view(hs: Seq<ObservedHeader>) -> Seq<HeaderView> {
    hs.map_values(|h: ObservedHeader| h.view())
}

/// The names of a sequence of headers, in order.
pub open spec fn names_of(obs: Seq<HeaderView>) -> Seq<Seq<char>> {
    obs.map_values(|h: HeaderView| h.0)
}

/// The expected shape of a response.
#[derive(Clone, Debug)]
pub struct HeaderSpec {
    /// Names that every conforming response carries, each once.
    required: Vec<String>,
    /// Names tolerated as extra although not required.
    tolerated: Vec<String>,
    /// Names whose value, where present, must equal the given text; each
    /// name once.
    exact: Vec<(String, String)>,
}

/// The mathematical content of a [`HeaderSpec`].
pub struct HeaderSpecView {
    pub required: Seq<Seq<char>>,
    pub tolerated: Seq<Seq<char>>,
    pub exact: Seq<(Seq<char>, Seq<char>)>,
}

impl HeaderSpecView {
    /// The required names and the names with an exact value are sets: none
    /// is listed twice.
    pub open spec fn wf(self) -> bool {
        &&& self.required.no_duplicates()
        &&& self.exact.map_values(|p: (Seq<char>, Seq<char>)| p.0).no_duplicates()
    }
}

impl View for HeaderSpec {
    type V = HeaderSpecView;

    closed spec fn view(&self) -> HeaderSpecView {
        HeaderSpecView {
            required: self.required.deep_view(),
            tolerated: self.tolerated.deep_view(),
            exact: self.exact.deep_view(),
        }
    }
}

/// One deviation of a response from the expected shape.
#[derive(Clone, Debug, PartialEq, Eq)]
pub enum Anomaly {
    /// A required header is absent.
    MissingHeader(String),
    /// A header that is neither required nor tolerated is present.
    UnexpectedHeader(String),
    /// A header holds another value than the one it must hold; the observed
    /// value is `None` where it is not text.
    UnexpectedValue(String, Option<String>),
}

/// The mathematical content of an [`Anomaly`].
pub enum AnomalyView {
    MissingHeader(Seq<char>),
    UnexpectedHeader(Seq<char>),
    UnexpectedValue(Seq<char>, Option<Seq<char>>),
}

impl View for Anomaly {
    type V = AnomalyView;

    open spec fn view(&self) -> AnomalyView {
        match self {
            Anomaly::MissingHeader(n) => AnomalyView::MissingHeader(n@),
            Anomaly::UnexpectedHeader(n) => AnomalyView::UnexpectedHeader(n@),
            Anomaly::UnexpectedValue(n, v) => AnomalyView::UnexpectedValue(n@, opt_view(*v)),
        }
    }
}

pub open spec fn anomalies_view(a: Seq<Anomaly>) -> Seq<AnomalyView> {
    a.map_values(|x: Anomaly| x@)
}

/// The required names that no observed header carries, in the order of
/// `required`, each as a missing-header anomaly.
pub open spec fn missing_headers(required: Seq<Seq<char>>, names: Seq<Seq<char>>) -> Seq<
    AnomalyView,
>
    decreases required.len(),
{
    if required.len() == 0 {
        seq![]
    } else {
        let prev = missing_headers(required.drop_last(), names);
        if names.contains(required.last()) {
            prev
        } else {
            prev.push(AnomalyView::MissingHeader(required.last()))
        }
    }
}

/// The observed names that are neither required nor tolerated, each once, in
/// the order of their first occurrence, as unexpected-header anomalies.
pub open spec fn unexpected_headers(
    names: Seq<Seq<char>>,
    required: Seq<Seq<char>>,
    tolerated: Seq<Seq<char>>,
) -> Seq<AnomalyView>
    decreases names.len(),
{
    if names.len() == 0 {
        seq![]
    } else {
        let prev = unexpected_headers(names.drop_last(), required, tolerated);
        let n = names.last();
        if required.contains(n) || tolerated.contains(n) || names.drop_last().contains(n) {
            prev
        } else {
            prev.push(AnomalyView::UnexpectedHeader(n))
        }
    }
}

/// The value of the first observed header named `name`, if there is one.
pub open spec fn first_value(obs: Seq<HeaderView>, name: Seq<char>) -> Option<
    Option<Seq<char>>,
>
    decreases obs.len(),
{
    if obs.len() == 0 {
        None
    } else if obs[0].0 == name {
        Some(obs[0].1)
    } else {
        first_value(obs.drop_first(), name)
    }
}

/// The anomaly, if any, of the header `name` that must hold `want`: none
/// where it is absent or holds `want`; else the value it holds.
pub open spec fn value_anomaly(obs: Seq<HeaderView>, name: Seq<char>, want: Seq<char>) -> Option<
    AnomalyView,
> {
    match first_value(obs, name) {
        None => None,
        Some(v) => if v == Some(want) {
            None
        } else {
            Some(AnomalyView::UnexpectedValue(name, v))
        },
    }
}

/// The value anomalies, in the order of `exact`.
pub open spec fn value_anomalies(exact: Seq<(Seq<char>, Seq<char>)>, obs: Seq<HeaderView>) -> Seq<
    AnomalyView,
>
    decreases exact.len(),
{
    if exact.len() == 0 {
        seq![]
    } else {
        let prev = value_anomalies(exact.drop_last(), obs);
        match value_anomaly(obs, exact.last().0, exact.last().1) {
            Some(a) => prev.push(a),
            None => prev,
        }
    }
}

/// All anomalies of one response: missing headers, then unexpected headers,
/// then unexpected values.
pub open spec fn anomalies_of(spec: HeaderSpecView, obs: Seq<HeaderView>) -> Seq<AnomalyView> {
    missing_headers(spec.required, names_of(obs)) + unexpected_headers(
        names_of(obs),
        spec.required,
        spec.tolerated,
    ) + value_anomalies(spec.exact, obs)
}

/// Whether `names` holds a string equal to `key`.
fn contains_name(names: &Vec<String>, key: &String) -> (r: bool)
    ensures
        r == names.deep_view().contains(key@),
{
    let mut i: usize = 0;
    while i < names.len()
        invariant
            i <= names.len(),
            forall|j: int| 0 <= j < i ==> names.deep_view()[j] != key@,
        decreases names.len() - i,
    {
        if names[i] == *key {
            assert(names.deep_view()[i as int] == key@);
            return true;
        }
        i = i + 1;
    }
    false
}

/// Whether one of the first `upto` observed headers is named `key`.
fn observed_contains(obs: &Vec<ObservedHeader>, key: &String, upto: usize) -> (r: bool)
    requires
        upto <= obs.len(),
    ensures
        r == names_of(headers_view(obs@)).take(upto as int).contains(key@),
{
    let ghost names = names_of(headers_view(obs@));
    let mut i: usize = 0;
    while i < upto
        invariant
            i <= upto <= obs.len(),
            names == names_of(headers_view(obs@)),
            forall|j: int| 0 <= j < i ==> names[j] != key@,
        decreases upto - i,
    {
        if obs[i].name == *key {
            assert(names.take(upto as int)[i as int] == key@);
            return true;
        }
        i = i + 1;
    }
    assert forall|j: int| 0 <= j < upto implies names.take(upto as int)[j] != key@ by {}
    false
}

/// The index of the first observed header named `key`, if there is one.
fn find_header(obs: &Vec<ObservedHeader>, key: &String) -> (r: Option<usize>)
    ensures
        match first_value(headers_view(obs@), key@) {
            None => r is None,
            Some(v) => r is Some && r->0 < obs.len() && obs@[r->0 as int].view().1 == v,
        },
{
    let ghost hv = headers_view(obs@);
    assert(hv.subrange(0, hv.len() as int) =~= hv);
    let mut i: usize = 0;
    while i < obs.len()
        invariant
            i <= obs.len(),
            hv == headers_view(obs@),
            first_value(hv, key@) == first_value(hv.subrange(i as int, hv.len() as int), key@),
        decreases obs.len() - i,
    {
        let ghost rest = hv.subrange(i as int, hv.len() as int);
        assert(rest.drop_first() =~= hv.subrange(i + 1, hv.len() as int));
        if obs[i].name == *key {
            return Some(i);
        }
        i = i + 1;
    }
    None
}

/// The missing-header anomalies of `obs` under `spec`.
fn check_missing(spec: &HeaderSpec, obs: &Vec<ObservedHeader>) -> (r: Vec<Anomaly>)
    ensures
        anomalies_view(r@) == missing_headers(spec@.required, names_of(headers_view(obs@))),
{
    let ghost names = names_of(headers_view(obs@));
    let ghost req = spec@.required;
    let mut r: Vec<Anomaly> = Vec::new();
    let mut i: usize = 0;
    while i < spec.required.len()
        invariant
            i <= spec.required.len(),
            req == spec@.required,
            names == names_of(headers_view(obs@)),
            anomalies_view(r@) == missing_headers(req.take(i as int), names),
        decreases spec.required.len() - i,
    {
        assert(req.take(i + 1).drop_last() =~= req.take(i as int));
        let key = &spec.required[i];
        if !observed_contains(obs, key, obs.len()) {
            assert(names.take(obs.len() as int) =~= names);
            r.push(Anomaly::MissingHeader(key.clone()));
            assert(anomalies_view(r@) =~= missing_headers(req.take(i + 1), names));
        } else {
            assert(names.take(obs.len() as int) =~= names);
        }
        i = i + 1;
    }
    assert(req.take(i as int) =~= req);
    r
}

/// The unexpected-header anomalies of `obs` under `spec`.
fn check_unexpected(spec: &HeaderSpec, obs: &Vec<ObservedHeader>) -> (r: Vec<Anomaly>)
    ensures
        anomalies_view(r@) == unexpected_headers(
            names_of(headers_view(obs@)),
            spec@.required,
            spec@.tolerated,
        ),
{
    let ghost names = names_of(headers_view(obs@));
    let mut r: Vec<Anomaly> = Vec::new();
    let mut i: usize = 0;
    while i < obs.len()
        invariant
            i <= obs.len(),
            names == names_of(headers_view(obs@)),
            anomalies_view(r@) == unexpected_headers(
                names.take(i as int),
                spec@.required,
                spec@.tolerated,
            ),
        decreases obs.len() - i,
    {
        assert(names.take(i + 1).drop_last() =~= names.take(i as int));
        let key = &obs[i].name;
        let known = contains_name(&spec.required, key) || contains_name(&spec.tolerated, key)
            || observed_contains(obs, key, i);
        if !known {
            r.push(Anomaly::UnexpectedHeader(key.clone()));
            assert(anomalies_view(r@) =~= unexpected_headers(
                names.take(i + 1),
                spec@.required,
                spec@.tolerated,
            ));
        }
        i = i + 1;
    }
    assert(names.take(i as int) =~= names);
    r
}

/// The value anomalies of `obs` under `spec`.
fn check_values(spec: &HeaderSpec, obs: &Vec<ObservedHeader>) -> (r: Vec<Anomaly>)
    ensures
        anomalies_view(r@) == value_anomalies(spec@.exact, headers_view(obs@)),
{
    let ghost hv = headers_view(obs@);
    let ghost exact = spec@.exact;
    let mut r: Vec<Anomaly> = Vec::new();
    let mut i: usize = 0;
    while i < spec.exact.len()
        invariant
            i <= spec.exact.len(),
            hv == headers_view(obs@),
            exact == spec@.exact,
            anomalies_view(r@) == value_anomalies(exact.take(i as int), hv),
        decreases spec.exact.len() - i,
    {
        assert(exact.take(i + 1).drop_last() =~= exact.take(i as int));
        let key = &spec.exact[i].0;
        let want = &spec.exact[i].1;
        match find_header(obs, key) {
            None => {},
            Some(j) => {
                let matches = match &obs[j].value {
                    Some(v) => *v == *want,
                    None => false,
                };
                if !matches {
                    let seen = match &obs[j].value {
                        Some(v) => Some(v.clone()),
                        None => None,
                    };
                    r.push(Anomaly::UnexpectedValue(key.clone(), seen));
                    assert(anomalies_view(r@) =~= value_anomalies(exact.take(i + 1), hv));
                }
            },
        }
        i = i + 1;
    }
    assert(exact.take(i as int) =~= exact);
    r
}

/// Holds one response, whose header names are already in lower case,
/// against `spec`: missing headers, then unexpected headers, then unexpected
/// values.
pub fn check_normalized(spec: &HeaderSpec, observed: &Vec<ObservedHeader>) -> (r: Vec<Anomaly>)
    ensures
        anomalies_view(r@) == anomalies_of(spec@, headers_view(observed@)),
{
    let mut r = check_missing(spec, observed);
    let mut u = check_unexpected(spec, observed);
    let mut v = check_values(spec, observed);
    r.append(&mut u);
    r.append(&mut v);
    assert(anomalies_view(r@) =~= anomalies_of(spec@, headers_view(observed@)));
    r
}

/// The lower-case form of a text, as the standard library computes it.
pub uninterp spec fn lowercase_of(s: Seq<char>) -> Seq<char>;

/// Relies on `str::to_lowercase`: the lower-case form of the whole text,
/// which depends on the text alone.
#[verifier::external_body]
fn to_lowercase(s: &String) -> (r: String)
    ensures
        r@ == lowercase_of(s@),
{
    s.to_lowercase()
}

/// The headers with their names in lower case and their values kept.
pub open spec fn lowered(obs: Seq<HeaderView>) -> Seq<HeaderView> {
    obs.map_values(|h: HeaderView| (lowercase_of(h.0), h.1))
}

/// Puts the name of every observed header in lower case.
pub fn normalize_names(observed: &Vec<ObservedHeader>) -> (r: Vec<ObservedHeader>)
    ensures
        headers_view(r@) == lowered(headers_view(observed@)),
{
    let mut r: Vec<ObservedHeader> = Vec::new();
    let mut i: usize = 0;
    while i < observed.len()
        invariant
            i <= observed.len(),
            r@.len() == i,
            headers_view(r@) == lowered(headers_view(observed@)).take(i as int),
        decreases observed.len() - i,
    {
        let h = &observed[i];
        let value = match &h.value {
            Some(v) => Some(v.clone()),
            None => None,
        };
        assert(opt_view(value) == opt_view(h.value));
        let name = to_lowercase(&h.name);
        r.push(ObservedHeader { name, value });
        assert(headers_view(observed@)[i as int] == h.view());
        assert(r@[i as int].view() == lowered(headers_view(observed@))[i as int]);
        assert(headers_view(r@) =~= lowered(headers_view(observed@)).take(i + 1));
        i = i + 1;
    }
    assert(lowered(headers_view(observed@)).take(i as int) =~= lowered(headers_view(observed@)));
    r
}

/// Holds one response against `spec`, comparing header names in lower case:
/// missing headers, then unexpected headers, then unexpected values.
pub fn check_headers(spec: &HeaderSpec, observed: &Vec<ObservedHeader>) -> (r: Vec<Anomaly>)
    ensures
        anomalies_view(r@) == anomalies_of(spec@, lowered(headers_view(observed@))),
{
    let normalized = normalize_names(observed);
    check_normalized(spec, &normalized)
}

/// A text as it stands between double quotes in a debug form: each double
/// quote written as a backslash and a double quote.
pub open spec fn quote_escaped(v: Seq<char>) -> Seq<char>
    decreases v.len(),
{
    if v.len() == 0 {
        seq![]
    } else if v.last() == '"' {
        quote_escaped(v.drop_last()) + seq!['\\', '"']
    } else {
        quote_escaped(v.drop_last()).push(v.last())
    }
}

proof fn lemma_quote_escaped_plain(s: Seq<char>, t: Seq<char>)
    requires
        forall|j: int| 0 <= j < t.len() ==> t[j] != '"',
    ensures
        quote_escaped(s + t) == quote_escaped(s) + t,
    decreases t.len(),
{
    if t.len() == 0 {
        assert(s + t =~= s);
        assert(quote_escaped(s) + t =~= quote_escaped(s));
    } else {
        assert((s + t).drop_last() =~= s + t.drop_last());
        assert((s + t).last() == t.last());
        lemma_quote_escaped_plain(s, t.drop_last());
        assert(quote_escaped(s) + t =~= (quote_escaped(s) + t.drop_last()).push(t.last()));
    }
}

/// Appends `v` to `r` with each double quote escaped.
fn append_quote_escaped(r: &mut String, v: &String)
    ensures
        final(r)@ == old(r)@ + quote_escaped(v@),
{
    let text = v.as_str();
    let n = text.unicode_len();
    let ghost base = r@;
    let mut start: usize = 0;
    let mut i: usize = 0;
    while i < n
        invariant
            n == v@.len(),
            text@ == v@,
            start <= i <= n,
            r@ == base + quote_escaped(v@.subrange(0, start as int)),
            forall|j: int| start <= j < i ==> v@[j] != '"',
        decreases n - i,
    {
        if text.get_char(i) == '"' {
            let plain = text.substring_char(start, i);
            r.append(plain);
            r.append("\\\"");
            proof {
                lemma_quote_escaped_plain(
                    v@.subrange(0, start as int),
                    v@.subrange(start as int, i as int),
                );
                assert(v@.subrange(0, start as int) + v@.subrange(start as int, i as int)
                    =~= v@.subrange(0, i as int));
                assert(v@.subrange(0, i + 1).drop_last() =~= v@.subrange(0, i as int));
                reveal_strlit("\\\"");
                assert(r@ =~= base + quote_escaped(v@.subrange(0, i + 1)));
            }
            start = i + 1;
        }
        i = i + 1;
    }
    let rest = text.substring_char(start, n);
    r.append(rest);
    proof {
        lemma_quote_escaped_plain(v@.subrange(0, start as int), v@.subrange(start as int, n as int));
        assert(v@.subrange(0, start as int) + v@.subrange(start as int, n as int) =~= v@);
        assert(r@ =~= base + quote_escaped(v@));
    }
}

/// The text that reports an anomaly.
pub open spec fn message_of(a: AnomalyView) -> Seq<char> {
    match a {
        AnomalyView::MissingHeader(n) => "Response did not contain '"@ + n + "' header."@,
        AnomalyView::UnexpectedHeader(n) => "Response contained unexpected '"@ + n
            + "' header."@,
        AnomalyView::UnexpectedValue(n, Some(v)) => "Header '"@ + n
            + "' has unexpected value '\""@ + quote_escaped(v) + "\"'."@,
        AnomalyView::UnexpectedValue(n, None) => "Header '"@ + n
            + "' has a value that is not text."@,
    }
}

impl Anomaly {
    /// The text that reports this anomaly.
    pub fn message(&self) -> (r: String)
        ensures
            r@ == message_of(self@),
    {
        match self {
            Anomaly::MissingHeader(n) => {
                let mut r = "Response did not contain '".to_string();
                r.append(n.as_str());
                r.append("' header.");
                r
            },
            Anomaly::UnexpectedHeader(n) => {
                let mut r = "Response contained unexpected '".to_string();
                r.append(n.as_str());
                r.append("' header.");
                r
            },
            Anomaly::UnexpectedValue(n, Some(v)) => {
                let mut r = "Header '".to_string();
                r.append(n.as_str());
                r.append("' has unexpected value '\"");
                append_quote_escaped(&mut r, v);
                r.append("\"'.");
                r
            },
            Anomaly::UnexpectedValue(n, None) => {
                let mut r = "Header '".to_string();
                r.append(n.as_str());
                r.append("' has a value that is not text.");
                r
            },
        }
    }
}

/// The shape that the registry's download host gives every response.
pub open spec fn download_host_spec() -> HeaderSpecView {
    HeaderSpecView {
        required: seq![
            "content-type"@,
            "content-length"@,
            "connection"@,
            "date"@,
            "last-modified"@,
            "etag"@,
            "x-amz-version-id"@,
            "accept-ranges"@,
            "server"@,
            "x-cache"@,
            "via"@,
            "x-amz-cf-pop"@,
            "x-amz-cf-id"@,
        ],
        tolerated: seq!["age"@],
        exact: seq![
            ("content-type"@, "application/x-tar"@),
            ("connection"@, "keep-alive"@),
            ("accept-ranges"@, "bytes"@),
            ("server"@, "AmazonS3"@),
        ],
    }
}

impl HeaderSpec {
    /// A spec of the given required names, tolerated names and exact
    /// values.
    pub fn new(required: Vec<String>, tolerated: Vec<String>, exact: Vec<(String, String)>) -> (r:
        HeaderSpec)
        requires
            (HeaderSpecView {
                required: required.deep_view(),
                tolerated: tolerated.deep_view(),
                exact: exact.deep_view(),
            }).wf(),
        ensures
            r@ == (HeaderSpecView {
                required: required.deep_view(),
                tolerated: tolerated.deep_view(),
                exact: exact.deep_view(),
            }),
    {
        HeaderSpec { required, tolerated, exact }
    }

    /// The shape that the registry's download host gives every response:
    /// thirteen required headers, a tolerated `age`, and four exact values.
    pub fn download_host() -> (r: HeaderSpec)
        ensures
            r@ == download_host_spec(),
            r@.wf(),
    {
        let required = vec![
            "content-type".to_string(),
            "content-length".to_string(),
            "connection".to_string(),
            "date".to_string(),
            "last-modified".to_string(),
            "etag".to_string(),
            "x-amz-version-id".to_string(),
            "accept-ranges".to_string(),
            "server".to_string(),
            "x-cache".to_string(),
            "via".to_string(),
            "x-amz-cf-pop".to_string(),
            "x-amz-cf-id".to_string(),
        ];
        let tolerated = vec!["age".to_string()];
        let exact = vec![
            ("content-type".to_string(), "application/x-tar".to_string()),
            ("connection".to_string(), "keep-alive".to_string()),
            ("accept-ranges".to_string(), "bytes".to_string()),
            ("server".to_string(), "AmazonS3".to_string()),
        ];
        let r = HeaderSpec { required, tolerated, exact };
        assert(r@.required =~= download_host_spec().required);
        assert(r@.tolerated =~= download_host_spec().tolerated);
        assert(r@.exact =~= download_host_spec().exact);
        proof {
            reveal_strlit("content-type");
            reveal_strlit("content-length");
            reveal_strlit("connection");
            reveal_strlit("date");
            reveal_strlit("last-modified");
            reveal_strlit("etag");
            reveal_strlit("x-amz-version-id");
            reveal_strlit("accept-ranges");
            reveal_strlit("server");
            reveal_strlit("x-cache");
            reveal_strlit("via");
            reveal_strlit("x-amz-cf-pop");
            reveal_strlit("x-amz-cf-id");
            let req = r@.required;
            assert forall|i: int, j: int| 0 <= i < req.len() && 0 <= j < req.len() && i != j implies req[i] != req[j] by {
                if req[i] == req[j] {
                    assert(req[i].len() == req[j].len());
                    assert(req[i][0] == req[j][0]);
                    assert(req[i][2] == req[j][2]);
                }
            }
            let keys = r@.exact.map_values(|p: (Seq<char>, Seq<char>)| p.0);
            assert(keys =~= seq!["content-type"@, "connection"@, "accept-ranges"@, "server"@]);
        }
        r
    }
}

proof fn lemma_missing_none(required: Seq<Seq<char>>, names: Seq<Seq<char>>)
    requires
        forall|n: Seq<char>| required.contains(n) ==> names.contains(n),
    ensures
        missing_headers(required, names) == Seq::<AnomalyView>::empty(),
    decreases required.len(),
{
    if required.len() > 0 {
        assert(required.contains(required.last()));
        assert forall|n: Seq<char>| required.drop_last().contains(n) implies names.contains(n) by {
            let k = choose|k: int| 0 <= k < required.drop_last().len() && required.drop_last()[k] == n;
            assert(required[k] == n);
        }
        lemma_missing_none(required.drop_last(), names);
    }
}

proof fn lemma_unexpected_none(
    names: Seq<Seq<char>>,
    required: Seq<Seq<char>>,
    tolerated: Seq<Seq<char>>,
)
    requires
        forall|n: Seq<char>| names.contains(n) ==> required.contains(n),
    ensures
        unexpected_headers(names, required, tolerated) == Seq::<AnomalyView>::empty(),
    decreases names.len(),
{
    if names.len() > 0 {
        assert(names.contains(names.last()));
        assert forall|n: Seq<char>| names.drop_last().contains(n) implies required.contains(n) by {
            let k = choose|k: int| 0 <= k < names.drop_last().len() && names.drop_last()[k] == n;
            assert(names[k] == n);
        }
        lemma_unexpected_none(names.drop_last(), required, tolerated);
    }
}

proof fn lemma_values_none(exact: Seq<(Seq<char>, Seq<char>)>, obs: Seq<HeaderView>)
    requires
        forall|i: int|
            0 <= i < exact.len() ==> (first_value(obs, #[trigger] exact[i].0) is None
                || first_value(obs, exact[i].0) == Some(Some(exact[i].1))),
    ensures
        value_anomalies(exact, obs) == Seq::<AnomalyView>::empty(),
    decreases exact.len(),
{
    if exact.len() > 0 {
        assert(exact.drop_last().len() == exact.len() - 1);
        assert forall|i: int| 0 <= i < exact.drop_last().len() implies (first_value(
            obs,
            #[trigger] exact.drop_last()[i].0,
        ) is None || first_value(obs, exact.drop_last()[i].0) == Some(
            Some(exact.drop_last()[i].1),
        )) by {
            assert(exact.drop_last()[i] == exact[i]);
        }
        let last_i = exact.len() - 1;
        assert(exact[last_i] == exact.last());
        lemma_values_none(exact.drop_last(), obs);
    }
}

/// A response whose header names are exactly the required ones (as a set),
/// and whose headers with an exact value hold that value, has no anomaly.
pub proof fn lemma_conforming_response(spec: HeaderSpecView, obs: Seq<HeaderView>)
    requires
        forall|n: Seq<char>| names_of(obs).contains(n) <==> spec.required.contains(n),
        forall|i: int|
            0 <= i < spec.exact.len() ==> (first_value(obs, #[trigger] spec.exact[i].0) is None
                || first_value(obs, spec.exact[i].0) == Some(Some(spec.exact[i].1))),
    ensures
        anomalies_of(spec, obs) == Seq::<AnomalyView>::empty(),
{
    lemma_missing_none(spec.required, names_of(obs));
    lemma_unexpected_none(names_of(obs), spec.required, spec.tolerated);
    lemma_values_none(spec.exact, obs);
    assert(anomalies_of(spec, obs) =~= Seq::<AnomalyView>::empty());
}

/// Checking the same response twice against the same spec gives the same
/// anomalies, in the same order.
pub proof fn lemma_check_repeatable(
    spec: HeaderSpecView,
    obs: Seq<HeaderView>,
    first: Seq<AnomalyView>,
    second: Seq<AnomalyView>,
)
    requires
        first == anomalies_of(spec, lowered(obs)),
        second == anomalies_of(spec, lowered(obs)),
    ensures
        first == second,
{
}

proof fn lemma_missing_kind(required: Seq<Seq<char>>, names: Seq<Seq<char>>)
    ensures
        forall|k: int|
            0 <= k < missing_headers(required, names).len() ==> #[trigger] missing_headers(
                required,
                names,
            )[k] is MissingHeader,
    decreases required.len(),
{
    if required.len() > 0 {
        lemma_missing_kind(required.drop_last(), names);
    }
}

proof fn lemma_values_kind(exact: Seq<(Seq<char>, Seq<char>)>, obs: Seq<HeaderView>)
    ensures
        forall|k: int|
            0 <= k < value_anomalies(exact, obs).len() ==> #[trigger] value_anomalies(
                exact,
                obs,
            )[k] is UnexpectedValue,
    decreases exact.len(),
{
    if exact.len() > 0 {
        lemma_values_kind(exact.drop_last(), obs);
    }
}

/// What the unexpected-header part holds: each name once, exactly those
/// observed that are neither required nor tolerated.
proof fn lemma_unexpected_members(
    names: Seq<Seq<char>>,
    required: Seq<Seq<char>>,
    tolerated: Seq<Seq<char>>,
)
    ensures
        unexpected_headers(names, required, tolerated).no_duplicates(),
        forall|k: int|
            0 <= k < unexpected_headers(names, required, tolerated).len() ==> {
                let a = #[trigger] unexpected_headers(names, required, tolerated)[k];
                &&& a is UnexpectedHeader
                &&& names.contains(a->UnexpectedHeader_0)
                &&& !required.contains(a->UnexpectedHeader_0)
                &&& !tolerated.contains(a->UnexpectedHeader_0)
            },
        forall|n: Seq<char>|
            names.contains(n) && !required.contains(n) && !tolerated.contains(n) ==> unexpected_headers(
                names,
                required,
                tolerated,
            ).contains(AnomalyView::UnexpectedHeader(n)),
    decreases names.len(),
{
    if names.len() > 0 {
        let init = names.drop_last();
        let last = names.last();
        let prev = unexpected_headers(init, required, tolerated);
        lemma_unexpected_members(init, required, tolerated);
        assert forall|k: int| 0 <= k < prev.len() implies names.contains(
            (#[trigger] prev[k])->UnexpectedHeader_0,
        ) by {
            let n = prev[k]->UnexpectedHeader_0;
            let m = choose|m: int| 0 <= m < init.len() && init[m] == n;
            assert(names[m] == n);
        }
        assert forall|n: Seq<char>|
            names.contains(n) && !required.contains(n) && !tolerated.contains(
                n,
            ) implies unexpected_headers(names, required, tolerated).contains(
            AnomalyView::UnexpectedHeader(n),
        ) by {
            let m = choose|m: int| 0 <= m < names.len() && names[m] == n;
            if m < names.len() - 1 {
                assert(init[m] == n);
                assert(init.contains(n));
                let j = choose|j: int|
                    0 <= j < prev.len() && prev[j] == AnomalyView::UnexpectedHeader(n);
                let cur = unexpected_headers(names, required, tolerated);
                assert(cur[j] == prev[j]);
            } else {
                let cur = unexpected_headers(names, required, tolerated);
                if init.contains(n) {
                    let j = choose|j: int|
                        0 <= j < prev.len() && prev[j] == AnomalyView::UnexpectedHeader(n);
                    assert(cur[j] == prev[j]);
                } else {
                    assert(cur[cur.len() - 1] == AnomalyView::UnexpectedHeader(n));
                }
            }
        }
        if !(required.contains(last) || tolerated.contains(last) || init.contains(last)) {
            let cur = prev.push(AnomalyView::UnexpectedHeader(last));
            assert forall|k: int| 0 <= k < prev.len() implies #[trigger] prev[k]
                != AnomalyView::UnexpectedHeader(last) by {}
            assert forall|i: int, j: int|
                0 <= i < cur.len() && 0 <= j < cur.len() && i != j implies cur[i] != cur[j] by {
                if i < prev.len() && j < prev.len() {
                    assert(cur[i] == prev[i] && cur[j] == prev[j]);
                } else if i < prev.len() {
                    assert(cur[i] == prev[i]);
                } else {
                    assert(cur[j] == prev[j]);
                }
            }
        }
    }
}

/// A tolerated header is never reported as unexpected, and a header that is
/// observed but neither required nor tolerated is reported as unexpected
/// exactly once.
pub proof fn lemma_unexpected_reported_once(spec: HeaderSpecView, obs: Seq<HeaderView>, name: Seq<char>)
    ensures
        spec.tolerated.contains(name) ==> !anomalies_of(spec, obs).contains(
            AnomalyView::UnexpectedHeader(name),
        ),
        names_of(obs).contains(name) && !spec.required.contains(name) && !spec.tolerated.contains(
            name,
        ) ==> exists|i: int|
            0 <= i < anomalies_of(spec, obs).len() && anomalies_of(spec, obs)[i]
                == AnomalyView::UnexpectedHeader(name) && forall|j: int|
                0 <= j < anomalies_of(spec, obs).len() && #[trigger] anomalies_of(spec, obs)[j]
                    == AnomalyView::UnexpectedHeader(name) ==> j == i,
{
    let names = names_of(obs);
    let m = missing_headers(spec.required, names);
    let u = unexpected_headers(names, spec.required, spec.tolerated);
    let v = value_anomalies(spec.exact, obs);
    let all = anomalies_of(spec, obs);
    lemma_missing_kind(spec.required, names);
    lemma_values_kind(spec.exact, obs);
    lemma_unexpected_members(names, spec.required, spec.tolerated);
    assert(all == m + u + v);
    let target = AnomalyView::UnexpectedHeader(name);
    assert forall|j: int| 0 <= j < all.len() && all[j] == target implies m.len() <= j < m.len()
        + u.len() && u[j - m.len()] == target by {
        if j < m.len() {
            assert(all[j] == m[j]);
        } else if j >= m.len() + u.len() {
            assert(all[j] == v[j - m.len() - u.len()]);
        } else {
            assert(all[j] == u[j - m.len()]);
        }
    }
    if spec.tolerated.contains(name) {
        if all.contains(target) {
            let j = choose|j: int| 0 <= j < all.len() && all[j] == target;
            assert(u[j - m.len()] == target);
        }
    }
    if names.contains(name) && !spec.required.contains(name) && !spec.tolerated.contains(name) {
        let k = choose|k: int| 0 <= k < u.len() && u[k] == target;
        let i = m.len() + k;
        assert(all[i] == u[k]);
        assert forall|j: int| 0 <= j < all.len() && #[trigger] all[j] == target implies j == i by {
            assert(u[j - m.len()] == target);
        }
    }
}

proof fn lemma_value_reported(exact: Seq<(Seq<char>, Seq<char>)>, obs: Seq<HeaderView>, i: int)
    requires
        0 <= i < exact.len(),
        value_anomaly(obs, exact[i].0, exact[i].1) is Some,
    ensures
        value_anomalies(exact, obs).contains(value_anomaly(obs, exact[i].0, exact[i].1)->0),
    decreases exact.len(),
{
    let all = value_anomalies(exact, obs);
    if i == exact.len() - 1 {
        assert(exact[i] == exact.last());
        assert(all[all.len() - 1] == value_anomaly(obs, exact[i].0, exact[i].1)->0);
    } else {
        assert(exact.drop_last()[i] == exact[i]);
        lemma_value_reported(exact.drop_last(), obs, i);
        let prev = value_anomalies(exact.drop_last(), obs);
        let j = choose|j: int| 0 <= j < prev.len() && prev[j] == value_anomaly(obs, exact[i].0, exact[i].1)->0;
        assert(all[j] == prev[j]);
    }
}

/// A header that must hold an exact value and holds another text (compared
/// case-sensitively) is reported with the value it holds.
pub proof fn lemma_wrong_value_reported(
    spec: HeaderSpecView,
    obs: Seq<HeaderView>,
    i: int,
    seen: Seq<char>,
)
    requires
        0 <= i < spec.exact.len(),
        first_value(obs, spec.exact[i].0) == Some(Some(seen)),
        seen != spec.exact[i].1,
    ensures
        anomalies_of(spec, obs).contains(AnomalyView::UnexpectedValue(spec.exact[i].0, Some(seen))),
{
    lemma_value_reported(spec.exact, obs, i);
    let m = missing_headers(spec.required, names_of(obs));
    let u = unexpected_headers(names_of(obs), spec.required, spec.tolerated);
    let v = value_anomalies(spec.exact, obs);
    let target = AnomalyView::UnexpectedValue(spec.exact[i].0, Some(seen));
    let j = choose|j: int| 0 <= j < v.len() && v[j] == target;
    assert((m + u + v)[m.len() + u.len() + j] == target);
}

proof fn lemma_missing_extra_name(required: Seq<Seq<char>>, names: Seq<Seq<char>>, n: Seq<char>)
    requires
        !required.contains(n),
    ensures
        missing_headers(required, names.push(n)) == missing_headers(required, names),
    decreases required.len(),
{
    if required.len() > 0 {
        assert(required.contains(required.last()));
        assert(names.push(n).contains(required.last()) == names.contains(required.last())) by {
            if names.push(n).contains(required.last()) {
                let k = choose|k: int| 0 <= k < names.push(n).len() && names.push(n)[k] == required.last();
                assert(k < names.len());
                assert(names[k] == required.last());
            }
            if names.contains(required.last()) {
                let k = choose|k: int| 0 <= k < names.len() && names[k] == required.last();
                assert(names.push(n)[k] == required.last());
            }
        }
        assert forall|m: Seq<char>| required.drop_last().contains(m) implies required.contains(m) by {
            let k = choose|k: int| 0 <= k < required.drop_last().len() && required.drop_last()[k] == m;
            assert(required[k] == m);
        }
        lemma_missing_extra_name(required.drop_last(), names, n);
    }
}

proof fn lemma_first_value_extra(obs: Seq<HeaderView>, h: HeaderView, k: Seq<char>)
    requires
        h.0 != k,
    ensures
        first_value(obs.push(h), k) == first_value(obs, k),
    decreases obs.len(),
{
    if obs.len() > 0 {
        assert(obs.push(h).drop_first() =~= obs.drop_first().push(h));
        assert(obs.push(h)[0] == obs[0]);
        lemma_first_value_extra(obs.drop_first(), h, k);
        assert(first_value(obs.push(h), k) == if obs[0].0 == k {
            Some(obs[0].1)
        } else {
            first_value(obs.drop_first().push(h), k)
        });
    } else {
        assert(obs.push(h)[0] == h);
        assert(obs.push(h).drop_first() =~= Seq::<HeaderView>::empty());
        assert(first_value(obs.push(h).drop_first(), k) is None);
    }
}

proof fn lemma_values_extra(exact: Seq<(Seq<char>, Seq<char>)>, obs: Seq<HeaderView>, h: HeaderView)
    requires
        forall|i: int| 0 <= i < exact.len() ==> (#[trigger] exact[i]).0 != h.0,
    ensures
        value_anomalies(exact, obs.push(h)) == value_anomalies(exact, obs),
    decreases exact.len(),
{
    if exact.len() > 0 {
        assert(exact[exact.len() - 1] == exact.last());
        lemma_first_value_extra(obs, h, exact.last().0);
        assert forall|i: int| 0 <= i < exact.drop_last().len() implies (
        #[trigger] exact.drop_last()[i]).0 != h.0 by {
            assert(exact.drop_last()[i] == exact[i]);
        }
        lemma_values_extra(exact.drop_last(), obs, h);
    }
}

/// Adding one header whose name is neither required nor given an exact
/// value: where the name is tolerated (or already observed) the anomalies
/// stay as they were; otherwise they stay as they were but for one
/// unexpected-header anomaly for that name.
pub proof fn lemma_extra_header(spec: HeaderSpecView, obs: Seq<HeaderView>, h: HeaderView)
    requires
        !spec.required.contains(h.0),
        forall|i: int| 0 <= i < spec.exact.len() ==> (#[trigger] spec.exact[i]).0 != h.0,
    ensures
        spec.tolerated.contains(h.0) || names_of(obs).contains(h.0) ==> anomalies_of(
            spec,
            obs.push(h),
        ) == anomalies_of(spec, obs),
        !spec.tolerated.contains(h.0) && !names_of(obs).contains(h.0) ==> anomalies_of(
            spec,
            obs.push(h),
        ).to_multiset() == anomalies_of(spec, obs).to_multiset().insert(
            AnomalyView::UnexpectedHeader(h.0),
        ),
{
    broadcast use vstd::seq_lib::group_to_multiset_ensures;
    broadcast use vstd::seq_lib::lemma_multiset_commutative;

    let names = names_of(obs);
    assert(names_of(obs.push(h)) =~= names.push(h.0));
    assert(names.push(h.0).drop_last() =~= names);
    lemma_missing_extra_name(spec.required, names, h.0);
    lemma_values_extra(spec.exact, obs, h);
    let m = missing_headers(spec.required, names);
    let u = unexpected_headers(names, spec.required, spec.tolerated);
    let v = value_anomalies(spec.exact, obs);
    if !spec.tolerated.contains(h.0) && !names.contains(h.0) {
        let x = AnomalyView::UnexpectedHeader(h.0);
        assert(unexpected_headers(names.push(h.0), spec.required, spec.tolerated) == u.push(x));
        assert(anomalies_of(spec, obs.push(h)) == m + u.push(x) + v);
        assert((m + u.push(x) + v).to_multiset() =~= (m + u + v).to_multiset().insert(x));
    }
}

} // verus!
