//! What a virtual user decides around each request: the method, URL,
//! headers and body to send, how a response is judged, and which values
//! it captures from the response for later requests.
use std::sync::Arc;
use vstd::prelude::*;

use crate::config::Step;
use crate::strmap::{
    has_key, keys_unique, lemma_pairs_to_map_lookup, lemma_seq_insert_map, pairs_to_map, seq_insert,
    StrMap,
};
use crate::text::{
    chars_equal, concat_chars, contains_seq, from_chars, lemma_replace_absent, replace_all,
    replace_all_chars, to_chars,
};
use crate::utils::{apply_context, csv_marker, lemma_token_resolves, token, csv_opt_view, resolve_needs_empty_row, resolve_spec, resolve_variables, CsvDataCache, CsvView};

verus! {

// ------------------------------------------------------------------
// Calls into std, serde_json and reqwest
// ------------------------------------------------------------------

/// What `str::to_uppercase` returns for a string.
pub uninterp spec fn uppercase(s: Seq<char>) -> Seq<char>;

/// `str::to_uppercase`: the Unicode upper-case mapping of a string. The
/// contract only names the result as a function of the input.
#[verifier::external_body]
fn to_upper(s: &str) -> (r: String)
    ensures
        r@ == uppercase(s@),
{
    s.to_uppercase()
}

/// The string member `field` of the JSON document `doc`: `None` when `doc`
/// is not JSON, is not an object, has no such member, or the member is not
/// a string.
pub uninterp spec fn json_member_str(doc: Seq<char>, field: Seq<char>) -> Option<Seq<char>>;

/// Parses `doc` with `serde_json::from_str` into a `serde_json::Value`,
/// takes its member `field` with `Value::get` and that member's text with
/// `Value::as_str`. The contract only names the result as a function of the
/// two strings.
#[verifier::external_body]
fn json_member_string(doc: &str, field: &str) -> (r: Option<String>)
    ensures
        match r {
            Some(s) => json_member_str(doc@, field@) == Some(s@),
            None => json_member_str(doc@, field@) is None,
        },
{
    let value = serde_json::from_str::<serde_json::Value>(doc).ok()?;
    value.get(field)?.as_str().map(|s| s.to_string())
}

/// The text that `reqwest::StatusCode` displays for a status code.
pub uninterp spec fn status_display(code: u16) -> Seq<char>;

/// The decimal digit `d` as a character.
pub open spec fn decimal_digit(d: int) -> char {
    (48 + d) as char
}

/// The three decimal digits of a status code from 100 to 999.
pub open spec fn three_digits(code: u16) -> Seq<char> {
    let c = code as int;
    seq![decimal_digit(c / 100), decimal_digit((c / 10) % 10), decimal_digit(c % 10)]
}

/// Builds a `reqwest::StatusCode` with `StatusCode::from_u16` (which accepts
/// 100 to 999) and renders it with its `Display` impl (the code and its
/// canonical reason, or `<unknown status code>`, after a space). The
/// contract states that the text starts with the code's three digits and a
/// space and goes on; the rest (the reason phrase) is only named.
#[verifier::external_body]
fn status_text(code: u16) -> (r: String)
    requires
        100 <= code <= 999,
    ensures
        r@ == status_display(code),
        r@.len() > 4,
        r@.subrange(0, 4) == three_digits(code).push(' '),
{
    match reqwest::StatusCode::from_u16(code) {
        Ok(status) => status.to_string(),
        Err(_) => String::new(),
    }
}

// ------------------------------------------------------------------
// Method, URL and response
// ------------------------------------------------------------------

/// The HTTP methods the engine sends.
#[derive(Debug, Clone, Copy, PartialEq, Eq, Structural)]
pub enum HttpMethod {
    Get,
    Post,
    Put,
    Delete,
}

/// The method sent for an upper-cased method name: POST, PUT and DELETE as
/// named, anything else as GET.
pub open spec fn method_spec(m: Seq<char>) -> HttpMethod {
    if m == seq!['P', 'O', 'S', 'T'] {
        HttpMethod::Post
    } else if m == seq!['P', 'U', 'T'] {
        HttpMethod::Put
    } else if m == seq!['D', 'E', 'L', 'E', 'T', 'E'] {
        HttpMethod::Delete
    } else {
        HttpMethod::Get
    }
}

/// Maps an upper-cased method name to the method sent.
pub fn parse_method(method: &str) -> (r: HttpMethod)
    ensures
        r == method_spec(method@),
{
    let m = to_chars(method);
    let post: Vec<char> = vec!['P', 'O', 'S', 'T'];
    let put: Vec<char> = vec!['P', 'U', 'T'];
    let delete: Vec<char> = vec!['D', 'E', 'L', 'E', 'T', 'E'];
    if chars_equal(&m, &post) {
        HttpMethod::Post
    } else if chars_equal(&m, &put) {
        HttpMethod::Put
    } else if chars_equal(&m, &delete) {
        HttpMethod::Delete
    } else {
        HttpMethod::Get
    }
}

/// The URL of a request: the host followed by the endpoint.
pub fn request_url(host: &str, endpoint: &str) -> (r: String)
    ensures
        r@ == host@ + endpoint@,
{
    from_chars(&concat_chars(&to_chars(host), &to_chars(endpoint)))
}

/// A status code reports success: 200 to 299.
pub open spec fn is_success_status(code: u16) -> bool {
    200 <= code <= 299
}

/// A status reports success exactly when it lies in 200 to 299: every 2xx
/// status, and no other.
pub proof fn lemma_success_is_2xx(code: u16)
    ensures
        is_success_status(code) <==> (200 <= code && code <= 299),
        is_success_status(200) && is_success_status(201) && is_success_status(204)
            && is_success_status(299),
        !is_success_status(199) && !is_success_status(300),
{
}

/// The text that starts the error of a failed response.
pub open spec fn status_error_prefix() -> Seq<char> {
    seq!['H', 'T', 'T', 'P', ' ', 'S', 't', 'a', 't', 'u', 's', ' ', 'E', 'r', 'r', 'o', 'r', ':', ' ']
}

/// Judges a response: its body when the status reports success, else an
/// error naming the status.
pub fn response_outcome(status: u16, body: String) -> (r: Result<String, String>)
    requires
        100 <= status <= 999,
    ensures
        is_success_status(status) ==> r == Ok::<String, String>(body),
        200 <= status <= 299 ==> r == Ok::<String, String>(body),
        status < 200 || status > 299 ==> r is Err,
        !is_success_status(status) ==> (r matches Err(e) && e@ == status_error_prefix()
            + status_display(status) && e@.len() > 23 && e@.subrange(19, 23) == three_digits(
            status,
        ).push(' ')),
{
    if 200 <= status && status <= 299 {
        Ok(body)
    } else {
        let prefix: Vec<char> = vec![
            'H', 'T', 'T', 'P', ' ', 'S', 't', 'a', 't', 'u', 's', ' ', 'E', 'r', 'r', 'o', 'r', ':', ' ',
        ];
        let shown = status_text(status);
        let text = concat_chars(&prefix, &to_chars(shown.as_str()));
        assert(text@.subrange(19, 23) =~= shown@.subrange(0, 4));
        Err(from_chars(&text))
    }
}

// ------------------------------------------------------------------
// Request preparation
// ------------------------------------------------------------------

/// The views of the entries of a configuration mapping.
pub open spec fn opt_pairs_view(v: Seq<(Option<String>, Option<String>)>) -> Seq<
    (Option<Seq<char>>, Option<Seq<char>>),
> {
    v.map_values(
        |e: (Option<String>, Option<String>)|
            (
                match e.0 {
                    Some(s) => Some(s@),
                    None => None,
                },
                match e.1 {
                    Some(s) => Some(s@),
                    None => None,
                },
            ),
    )
}

/// The endpoint text of a step: its `endpoint` detail, or `/`.
pub open spec fn endpoint_text(step: Step) -> Seq<char> {
    match step.endpoint {
        Some(e) => e@,
        None => seq!['/'],
    }
}

/// The headers sent: `base`, then each string entry of the step's
/// `headers` in order, its value interpolated, written over any earlier
/// header of the same name.
pub open spec fn merge_headers(
    base: Seq<(Seq<char>, Seq<char>)>,
    pairs: Seq<(Option<Seq<char>>, Option<Seq<char>>)>,
    ctx: Seq<(Seq<char>, Seq<char>)>,
    csv: Option<CsvView>,
    row: int,
) -> Seq<(Seq<char>, Seq<char>)>
    decreases pairs.len(),
{
    if pairs.len() == 0 {
        base
    } else {
        let prev = merge_headers(base, pairs.drop_last(), ctx, csv, row);
        match pairs.last() {
            (Some(k), Some(v)) => seq_insert(prev, k, resolve_spec(v, ctx, csv, row)),
            _ => prev,
        }
    }
}

/// Every text that preparing `step` interpolates can be interpolated.
pub open spec fn step_resolvable(
    step: Step,
    ctx: Seq<(Seq<char>, Seq<char>)>,
    csv: Option<CsvView>,
) -> bool {
    &&& !resolve_needs_empty_row(endpoint_text(step), ctx, csv)
    &&& !resolve_needs_empty_row(step.body@, ctx, csv)
    &&& forall|i: int|
        0 <= i < step.headers@.len() ==> (#[trigger] opt_pairs_view(step.headers@)[i] matches (
            Some(_k),
            Some(v),
        ) ==> !resolve_needs_empty_row(v, ctx, csv))
}

/// A request ready to be sent.
pub struct PreparedRequest {
    /// The upper-cased method name.
    pub method: String,
    /// The interpolated endpoint.
    pub endpoint: String,
    /// The headers to send.
    pub headers: StrMap,
    /// The interpolated body, as YAML text.
    pub body: String,
}

/// Copies a map.
pub fn copy_map(m: &StrMap) -> (r: StrMap)
    ensures
        r@ == m@,
{
    let mut r = StrMap::new();
    let n = m.len();
    let mut i: usize = 0;
    assert(m@.take(0) =~= Seq::<(Seq<char>, Seq<char>)>::empty());
    while i < n
        invariant
            n == m@.len(),
            keys_unique(m@),
            i <= n,
            r@ == m@.take(i as int),
        decreases n - i,
    {
        let (k, v) = m.entry(i);
        proof {
            assert(!crate::strmap::has_key(r@, k@)) by {
                if crate::strmap::has_key(r@, k@) {
                    let j = choose|j: int| 0 <= j < r@.len() && r@[j].0 == k@;
                    assert(m@[j].0 == m@[i as int].0);
                }
            }
        }
        r.insert(k.clone(), v.clone());
        assert(m@.take(i as int).push(m@[i as int]) =~= m@.take(i + 1));
        i = i + 1;
    }
    assert(m@.take(n as int) =~= m@);
    r
}

/// Prepares the request of `step` for a virtual user: the method name in
/// upper case, the endpoint (default `/`), the common headers overlaid by
/// the step's string headers, and the body, each interpolated with the
/// user's captured variables and the CSV record chosen by `csv_row_index`.
pub fn prepare_request(
    common_headers: &StrMap,
    step: &Step,
    context: &StrMap,
    csv_cache: &Option<Arc<CsvDataCache>>,
    csv_row_index: usize,
) -> (r: PreparedRequest)
    requires
        step_resolvable(*step, context@, csv_opt_view(*csv_cache)),
    ensures
        r.method@ == uppercase(step.method@),
        r.endpoint@ == resolve_spec(
            endpoint_text(*step),
            context@,
            csv_opt_view(*csv_cache),
            csv_row_index as int,
        ),
        r.headers@ == merge_headers(
            common_headers@,
            opt_pairs_view(step.headers@),
            context@,
            csv_opt_view(*csv_cache),
            csv_row_index as int,
        ),
        r.body@ == resolve_spec(step.body@, context@, csv_opt_view(*csv_cache), csv_row_index as int),
{
    let ghost csv = csv_opt_view(*csv_cache);
    let endpoint = match &step.endpoint {
        Some(e) => resolve_variables(e.as_str(), context, csv_cache, csv_row_index),
        None => {
            let slash = from_chars(&vec!['/']);
            resolve_variables(slash.as_str(), context, csv_cache, csv_row_index)
        },
    };
    let method = to_upper(step.method.as_str());
    let mut headers = copy_map(common_headers);
    let ghost pairs = opt_pairs_view(step.headers@);
    let n = step.headers.len();
    let mut i: usize = 0;
    assert(pairs.take(0) =~= Seq::<(Option<Seq<char>>, Option<Seq<char>>)>::empty());
    while i < n
        invariant
            n == step.headers@.len(),
            pairs == opt_pairs_view(step.headers@),
            csv == csv_opt_view(*csv_cache),
            step_resolvable(*step, context@, csv),
            i <= n,
            headers@ == merge_headers(
                common_headers@,
                pairs.take(i as int),
                context@,
                csv,
                csv_row_index as int,
            ),
        decreases n - i,
    {
        proof {
            assert(pairs.take(i + 1).drop_last() =~= pairs.take(i as int));
            assert(pairs.take(i + 1).last() == pairs[i as int]);
        }
        let entry = &step.headers[i];
        match (&entry.0, &entry.1) {
            (Some(k), Some(v)) => {
                assert(pairs[i as int] matches (Some(_k), Some(vv)) && vv == v@);
                let value = resolve_variables(v.as_str(), context, csv_cache, csv_row_index);
                headers.insert(k.clone(), value);
            },
            _ => {},
        }
        i = i + 1;
    }
    assert(pairs.take(n as int) =~= pairs);
    let body = resolve_variables(step.body.as_str(), context, csv_cache, csv_row_index);
    PreparedRequest { method, endpoint, headers, body }
}

/// The statistics key of a request: the method, a space, the endpoint.
pub fn endpoint_key(method: &str, endpoint: &str) -> (r: String)
    ensures
        r@ == method@ + seq![' '] + endpoint@,
{
    let space: Vec<char> = vec![' '];
    let head = concat_chars(&to_chars(method), &space);
    from_chars(&concat_chars(&head, &to_chars(endpoint)))
}

// ------------------------------------------------------------------
// Response correlation
// ------------------------------------------------------------------

/// The JSON member named by a capture path: the path without `json.`.
pub open spec fn capture_field(path: Seq<char>) -> Seq<char> {
    replace_all(path, seq!['j', 's', 'o', 'n', '.'], Seq::empty())
}

/// The variables after capturing, rule by rule in order, each string rule
/// `name -> path` whose member is a string in the response body `body`.
pub open spec fn captured(
    ctx: Seq<(Seq<char>, Seq<char>)>,
    rules: Seq<(Option<Seq<char>>, Option<Seq<char>>)>,
    body: Seq<char>,
) -> Seq<(Seq<char>, Seq<char>)>
    decreases rules.len(),
{
    if rules.len() == 0 {
        ctx
    } else {
        let prev = captured(ctx, rules.drop_last(), body);
        match rules.last() {
            (Some(name), Some(path)) => match json_member_str(body, capture_field(path)) {
                Some(v) => seq_insert(prev, name, v),
                None => prev,
            },
            _ => prev,
        }
    }
}

/// Captures variables from a successful response: for each rule of the
/// step's `capture` mapping, the string member of the JSON body named by
/// the rule's path (without `json.`) is stored under the rule's name. A
/// failed request captures nothing.
pub fn apply_captures(context: &mut StrMap, step: &Step, response: &Result<String, String>)
    ensures
        match response {
            Ok(body) => final(context)@ == captured(old(context)@, opt_pairs_view(step.capture@), body@),
            Err(_) => final(context)@ == old(context)@,
        },
        response is Ok ==> forall|k: Seq<char>|
            (forall|j: int|
                0 <= j < step.capture@.len() ==> !#[trigger] binds(
                    opt_pairs_view(step.capture@),
                    j,
                    k,
                    response->Ok_0@,
                )) ==> (#[trigger] final(context).as_map().dom().contains(k) == old(
                context,
            ).as_map().dom().contains(k) && final(context).as_map()[k] == old(context).as_map()[k]),
{
    let _entries: usize = context.len();
    let body = match response {
        Ok(b) => b,
        Err(_) => { return; },
    };
    let ghost start = context@;
    let ghost rules = opt_pairs_view(step.capture@);
    let json_prefix: Vec<char> = vec!['j', 's', 'o', 'n', '.'];
    let nothing: Vec<char> = Vec::new();
    let n = step.capture.len();
    let mut i: usize = 0;
    assert(rules.take(0) =~= Seq::<(Option<Seq<char>>, Option<Seq<char>>)>::empty());
    while i < n
        invariant
            n == step.capture@.len(),
            rules == opt_pairs_view(step.capture@),
            json_prefix@ == seq!['j', 's', 'o', 'n', '.'],
            nothing@ == Seq::<char>::empty(),
            i <= n,
            context@ == captured(start, rules.take(i as int), body@),
        decreases n - i,
    {
        proof {
            assert(rules.take(i + 1).drop_last() =~= rules.take(i as int));
            assert(rules.take(i + 1).last() == rules[i as int]);
        }
        let rule = &step.capture[i];
        match (&rule.0, &rule.1) {
            (Some(name), Some(path)) => {
                assert(rules[i as int] matches (Some(nn), Some(pp)) && nn == name@ && pp == path@);
                let field = from_chars(&replace_all_chars(&to_chars(path.as_str()), &json_prefix, &nothing));
                match json_member_string(body.as_str(), field.as_str()) {
                    Some(v) => {
                        context.insert(name.clone(), v);
                    },
                    None => {},
                }
            },
            _ => {},
        }
        i = i + 1;
    }
    assert(rules.take(n as int) =~= rules);
    assert forall|k: Seq<char>|
        (forall|j: int|
            0 <= j < step.capture@.len() ==> !#[trigger] binds(
                opt_pairs_view(step.capture@),
                j,
                k,
                response->Ok_0@,
            )) implies (#[trigger] context.as_map().dom().contains(k) == pairs_to_map(
        start,
    ).dom().contains(k) && context.as_map()[k] == pairs_to_map(start)[k]) by {
        assert forall|j: int| 0 <= j < rules.len() implies !binds(rules, j, k, body@) by {
        }
        lemma_capture_frame(start, rules, body@, k);
    }
}

// ------------------------------------------------------------------
// Laws
// ------------------------------------------------------------------

/// Merging step headers keeps header names unique.
pub proof fn lemma_merge_unique(
    base: Seq<(Seq<char>, Seq<char>)>,
    pairs: Seq<(Option<Seq<char>>, Option<Seq<char>>)>,
    ctx: Seq<(Seq<char>, Seq<char>)>,
    csv: Option<CsvView>,
    row: int,
)
    requires
        keys_unique(base),
    ensures
        keys_unique(merge_headers(base, pairs, ctx, csv, row)),
    decreases pairs.len(),
{
    if pairs.len() > 0 {
        lemma_merge_unique(base, pairs.drop_last(), ctx, csv, row);
        let prev = merge_headers(base, pairs.drop_last(), ctx, csv, row);
        match pairs.last() {
            (Some(k), Some(v)) => {
                lemma_seq_insert_map(prev, k, resolve_spec(v, ctx, csv, row));
            },
            _ => {},
        }
    }
}

/// Step header entry `j` of `pairs` writes a header named `k`.
pub open spec fn writes_header(pairs: Seq<(Option<Seq<char>>, Option<Seq<char>>)>, j: int, k: Seq<char>) -> bool {
    pairs[j] matches (Some(kk), Some(_v)) && kk == k
}

/// The last step header written under a name is the one sent, with its
/// value interpolated, wherever it stands among the step's headers: a
/// step's header overrides a common header, or an earlier step header, of
/// the same name.
pub proof fn lemma_step_header_wins(
    base: Seq<(Seq<char>, Seq<char>)>,
    pairs: Seq<(Option<Seq<char>>, Option<Seq<char>>)>,
    ctx: Seq<(Seq<char>, Seq<char>)>,
    csv: Option<CsvView>,
    row: int,
    i: int,
    k: Seq<char>,
    v: Seq<char>,
)
    requires
        keys_unique(base),
        0 <= i < pairs.len(),
        pairs[i] == (Some(k), Some(v)),
        forall|j: int| i < j < pairs.len() ==> !writes_header(pairs, j, k),
    ensures
        pairs_to_map(merge_headers(base, pairs, ctx, csv, row)).dom().contains(k),
        pairs_to_map(merge_headers(base, pairs, ctx, csv, row))[k] == resolve_spec(v, ctx, csv, row),
    decreases pairs.len(),
{
    let init = pairs.drop_last();
    lemma_merge_unique(base, init, ctx, csv, row);
    let prev = merge_headers(base, init, ctx, csv, row);
    assert(pairs.last() == pairs[pairs.len() - 1]);
    if i == pairs.len() - 1 {
        lemma_seq_insert_map(prev, k, resolve_spec(v, ctx, csv, row));
    } else {
        assert forall|j: int| i < j < init.len() implies !writes_header(init, j, k) by {
            assert(init[j] == pairs[j]);
            assert(!writes_header(pairs, j, k));
        }
        assert(init[i] == pairs[i]);
        lemma_step_header_wins(base, init, ctx, csv, row, i, k, v);
        assert(!writes_header(pairs, pairs.len() - 1, k));
        match pairs.last() {
            (Some(kk), Some(vv)) => {
                lemma_seq_insert_map(prev, kk, resolve_spec(vv, ctx, csv, row));
            },
            _ => {},
        }
    }
}

/// A common header whose name no step header uses is sent unchanged.
pub proof fn lemma_common_header_kept(
    base: Seq<(Seq<char>, Seq<char>)>,
    pairs: Seq<(Option<Seq<char>>, Option<Seq<char>>)>,
    ctx: Seq<(Seq<char>, Seq<char>)>,
    csv: Option<CsvView>,
    row: int,
    k: Seq<char>,
)
    requires
        keys_unique(base),
        forall|i: int| 0 <= i < pairs.len() ==> !(#[trigger] pairs[i] matches (Some(kk), Some(_v)) && kk == k),
    ensures
        pairs_to_map(merge_headers(base, pairs, ctx, csv, row)).dom().contains(k) == pairs_to_map(base).dom().contains(k),
        pairs_to_map(merge_headers(base, pairs, ctx, csv, row))[k] == pairs_to_map(base)[k],
    decreases pairs.len(),
{
    if pairs.len() > 0 {
        let init = pairs.drop_last();
        assert forall|i: int| 0 <= i < init.len() implies !(#[trigger] init[i] matches (Some(kk), Some(_v)) && kk == k) by {
            assert(init[i] == pairs[i]);
        }
        lemma_common_header_kept(base, init, ctx, csv, row, k);
        lemma_merge_unique(base, init, ctx, csv, row);
        let prev = merge_headers(base, init, ctx, csv, row);
        assert(pairs.last() == pairs[pairs.len() - 1]);
        match pairs.last() {
            (Some(kk), Some(v)) => {
                lemma_seq_insert_map(prev, kk, resolve_spec(v, ctx, csv, row));
            },
            _ => {},
        }
    }
}

/// A value captured from a response under a name is what that name's
/// placeholder resolves to in the next request.
pub proof fn lemma_capture_then_resolve(
    name: Seq<char>,
    path: Seq<char>,
    body: Seq<char>,
    value: Seq<char>,
    row: int,
)
    requires
        json_member_str(body, capture_field(path)) == Some(value),
    ensures
        resolve_spec(
            token(name),
            captured(Seq::empty(), seq![(Some(name), Some(path))], body),
            None,
            row,
        ) == value,
{
    let rules = seq![(Some(name), Some(path))];
    assert(rules.drop_last() =~= Seq::<(Option<Seq<char>>, Option<Seq<char>>)>::empty());
    let empty = Seq::<(Seq<char>, Seq<char>)>::empty();
    assert(!crate::strmap::has_key(empty, name));
    assert(captured(empty, rules.drop_last(), body) == empty);
    assert(rules.last() == (Some(name), Some(path)));
    assert(seq_insert(empty, name, value) =~= seq![(name, value)]);
    assert(captured(empty, rules, body) == seq_insert(empty, name, value));
    lemma_token_resolves(name, value, row);
}

/// Capture rule `j` of `rules` stores a value under `name` for the
/// response body `body`.
pub open spec fn binds(
    rules: Seq<(Option<Seq<char>>, Option<Seq<char>>)>,
    j: int,
    name: Seq<char>,
    body: Seq<char>,
) -> bool {
    rules[j] matches (Some(n), Some(p)) && n == name && json_member_str(body, capture_field(p)) is Some
}

/// Capturing keeps variable names unique.
pub proof fn lemma_captured_unique(
    ctx: Seq<(Seq<char>, Seq<char>)>,
    rules: Seq<(Option<Seq<char>>, Option<Seq<char>>)>,
    body: Seq<char>,
)
    requires
        keys_unique(ctx),
    ensures
        keys_unique(captured(ctx, rules, body)),
    decreases rules.len(),
{
    if rules.len() > 0 {
        lemma_captured_unique(ctx, rules.drop_last(), body);
        let prev = captured(ctx, rules.drop_last(), body);
        match rules.last() {
            (Some(name), Some(path)) => match json_member_str(body, capture_field(path)) {
                Some(v) => {
                    lemma_seq_insert_map(prev, name, v);
                },
                None => {},
            },
            _ => {},
        }
    }
}

/// After capturing, a variable holds the value found by the last rule that
/// stores a value under its name, whatever the variables held before.
pub proof fn lemma_capture_binds(
    ctx: Seq<(Seq<char>, Seq<char>)>,
    rules: Seq<(Option<Seq<char>>, Option<Seq<char>>)>,
    body: Seq<char>,
    i: int,
    name: Seq<char>,
    path: Seq<char>,
    value: Seq<char>,
)
    requires
        keys_unique(ctx),
        0 <= i < rules.len(),
        rules[i] == (Some(name), Some(path)),
        json_member_str(body, capture_field(path)) == Some(value),
        forall|j: int| i < j < rules.len() ==> !binds(rules, j, name, body),
    ensures
        keys_unique(captured(ctx, rules, body)),
        pairs_to_map(captured(ctx, rules, body)).dom().contains(name),
        pairs_to_map(captured(ctx, rules, body))[name] == value,
    decreases rules.len(),
{
    lemma_captured_unique(ctx, rules, body);
    let init = rules.drop_last();
    lemma_captured_unique(ctx, init, body);
    let prev = captured(ctx, init, body);
    assert(rules.last() == rules[rules.len() - 1]);
    if i == rules.len() - 1 {
        lemma_seq_insert_map(prev, name, value);
    } else {
        assert forall|j: int| i < j < init.len() implies !binds(init, j, name, body) by {
            assert(init[j] == rules[j]);
            assert(!binds(rules, j, name, body));
        }
        assert(init[i] == rules[i]);
        lemma_capture_binds(ctx, init, body, i, name, path, value);
        assert(!binds(rules, rules.len() - 1, name, body));
        match rules.last() {
            (Some(n), Some(p)) => match json_member_str(body, capture_field(p)) {
                Some(v) => {
                    lemma_seq_insert_map(prev, n, v);
                },
                None => {},
            },
            _ => {},
        }
    }
}

/// Applying a context in which only `name` has a placeholder in the text,
/// before and after its replacement, replaces that placeholder alone.
proof fn lemma_apply_context_one_var(
    text: Seq<char>,
    ctx: Seq<(Seq<char>, Seq<char>)>,
    name: Seq<char>,
    value: Seq<char>,
)
    requires
        keys_unique(ctx),
        forall|j: int| 0 <= j < ctx.len() && (#[trigger] ctx[j]).0 == name ==> ctx[j].1 == value,
        forall|j: int|
            0 <= j < ctx.len() && (#[trigger] ctx[j]).0 != name ==> !contains_seq(text, token(ctx[j].0))
                && !contains_seq(replace_all(text, token(name), value), token(ctx[j].0)),
    ensures
        apply_context(text, ctx) == if has_key(ctx, name) {
            replace_all(text, token(name), value)
        } else {
            text
        },
    decreases ctx.len(),
{
    if ctx.len() > 0 {
        let init = ctx.drop_last();
        let last = ctx.last();
        assert(last == ctx[ctx.len() - 1]);
        assert(keys_unique(init));
        assert forall|j: int| 0 <= j < init.len() && (#[trigger] init[j]).0 == name implies init[j].1 == value by {
            assert(init[j] == ctx[j]);
        }
        assert forall|j: int|
            0 <= j < init.len() && (#[trigger] init[j]).0 != name implies !contains_seq(text, token(init[j].0))
                && !contains_seq(replace_all(text, token(name), value), token(init[j].0)) by {
            assert(init[j] == ctx[j]);
        }
        lemma_apply_context_one_var(text, init, name, value);
        if last.0 == name {
            assert(!has_key(init, name)) by {
                if has_key(init, name) {
                    let j = choose|j: int| 0 <= j < init.len() && init[j].0 == name;
                    assert(ctx[j].0 == ctx[ctx.len() - 1].0);
                }
            }
            assert(has_key(ctx, name));
        } else {
            let new_text = replace_all(text, token(name), value);
            lemma_replace_absent(text, token(last.0), last.1);
            lemma_replace_absent(new_text, token(last.0), last.1);
            if has_key(ctx, name) {
                let j = choose|j: int| 0 <= j < ctx.len() && ctx[j].0 == name;
                assert(j < ctx.len() - 1);
                assert(init[j].0 == name);
            }
            if has_key(init, name) {
                let j = choose|j: int| 0 <= j < init.len() && init[j].0 == name;
                assert(ctx[j].0 == name);
            }
        }
    }
}

/// Token chaining: after a response is captured, a later text in which no
/// other variable's placeholder occurs (before or after the substitution)
/// and which, with a CSV cache, holds no `$csv.` after it, is interpolated
/// to the text with every `$name` replaced by the value the last rule
/// binding `name` found, whatever the variables held before.
pub proof fn lemma_token_chaining(
    ctx: Seq<(Seq<char>, Seq<char>)>,
    rules: Seq<(Option<Seq<char>>, Option<Seq<char>>)>,
    body: Seq<char>,
    i: int,
    name: Seq<char>,
    path: Seq<char>,
    value: Seq<char>,
    text: Seq<char>,
    csv: Option<CsvView>,
    row: int,
)
    requires
        keys_unique(ctx),
        0 <= i < rules.len(),
        rules[i] == (Some(name), Some(path)),
        json_member_str(body, capture_field(path)) == Some(value),
        forall|j: int| i < j < rules.len() ==> !binds(rules, j, name, body),
        forall|j: int|
            0 <= j < captured(ctx, rules, body).len() && (#[trigger] captured(ctx, rules, body)[j]).0
                != name ==> !contains_seq(text, token(captured(ctx, rules, body)[j].0))
                && !contains_seq(replace_all(text, token(name), value), token(captured(ctx, rules, body)[j].0)),
        csv is None || !contains_seq(replace_all(text, token(name), value), csv_marker()),
    ensures
        pairs_to_map(captured(ctx, rules, body))[name] == value,
        resolve_spec(text, captured(ctx, rules, body), csv, row) == replace_all(text, token(name), value),
{
    let c = captured(ctx, rules, body);
    lemma_capture_binds(ctx, rules, body, i, name, path, value);
    lemma_pairs_to_map_lookup(c, name);
    assert forall|j: int| 0 <= j < c.len() && (#[trigger] c[j]).0 == name implies c[j].1 == value by {
    }
    lemma_apply_context_one_var(text, c, name, value);
    if !text.contains('$') {
        assert(!contains_seq(text, token(name))) by {
            if contains_seq(text, token(name)) {
                let k = choose|k: int| crate::text::matches_at(text, token(name), k);
                assert(text.subrange(k, k + token(name).len())[0] == text[k]);
                assert(token(name)[0] == '$');
            }
        }
        lemma_replace_absent(text, token(name), value);
    }
}

/// Capturing forgets nothing: every variable whose name no rule stores a
/// value under keeps its presence and its value, and so does the order
/// of the entries that held it.
pub proof fn lemma_capture_frame(
    ctx: Seq<(Seq<char>, Seq<char>)>,
    rules: Seq<(Option<Seq<char>>, Option<Seq<char>>)>,
    body: Seq<char>,
    k: Seq<char>,
)
    requires
        keys_unique(ctx),
        forall|j: int| 0 <= j < rules.len() ==> !binds(rules, j, k, body),
    ensures
        pairs_to_map(captured(ctx, rules, body)).dom().contains(k) == pairs_to_map(ctx).dom().contains(k),
        pairs_to_map(captured(ctx, rules, body))[k] == pairs_to_map(ctx)[k],
    decreases rules.len(),
{
    if rules.len() > 0 {
        let init = rules.drop_last();
        assert forall|j: int| 0 <= j < init.len() implies !binds(init, j, k, body) by {
            assert(init[j] == rules[j]);
            assert(!binds(rules, j, k, body));
        }
        lemma_capture_frame(ctx, init, body, k);
        lemma_captured_unique(ctx, init, body);
        let prev = captured(ctx, init, body);
        assert(rules.last() == rules[rules.len() - 1]);
        assert(!binds(rules, rules.len() - 1, k, body));
        match rules.last() {
            (Some(n), Some(p)) => match json_member_str(body, capture_field(p)) {
                Some(v) => {
                    lemma_seq_insert_map(prev, n, v);
                },
                None => {},
            },
            _ => {},
        }
    }
}

/// Capturing only adds or rewrites entries: every entry of the old
/// variables is still there with the same name, and only a name that some
/// rule stores a value under can change its value.
pub proof fn lemma_capture_keeps_entries(
    ctx: Seq<(Seq<char>, Seq<char>)>,
    rules: Seq<(Option<Seq<char>>, Option<Seq<char>>)>,
    body: Seq<char>,
)
    ensures
        captured(ctx, rules, body).len() >= ctx.len(),
        forall|i: int| 0 <= i < ctx.len() ==> (#[trigger] captured(ctx, rules, body)[i]).0 == ctx[i].0,
    decreases rules.len(),
{
    if rules.len() > 0 {
        lemma_capture_keeps_entries(ctx, rules.drop_last(), body);
        let prev = captured(ctx, rules.drop_last(), body);
        match rules.last() {
            (Some(n), Some(p)) => match json_member_str(body, capture_field(p)) {
                Some(v) => {
                    if has_key(prev, n) {
                        let i = choose|i: int| 0 <= i < prev.len() && prev[i].0 == n;
                        assert forall|m: int| 0 <= m < ctx.len() implies (#[trigger] captured(ctx, rules, body)[m]).0 == ctx[m].0 by {
                            assert(prev[m].0 == ctx[m].0);
                        }
                    } else {
                        assert forall|m: int| 0 <= m < ctx.len() implies (#[trigger] captured(ctx, rules, body)[m]).0 == ctx[m].0 by {
                            assert(prev[m].0 == ctx[m].0);
                        }
                    }
                },
                None => {},
            },
            _ => {},
        }
    }
}

} // verus!
