//! What the model is asked, and what is made of its answers.

use vstd::prelude::*;
use vstd::arithmetic::power2::lemma_pow2_pos;
use crate::decimal::{dec, ten};
use crate::double::{
    lemma_magnitude_order, lemma_rounded_order, lemma_whole_exact, one, rounded, whole,
};
use crate::json::{array_text, entry, member, object_text, parsed_json, Json};
use crate::pieces::lemma_bare_trimmed;
use crate::places::lemma_small_writable;
use crate::published::{lemma_plain_number, num};
use crate::said::{lemma_elements_back, lemma_member_back, lemma_step, shown_int};
use crate::summarizer::{
    answer, candidate, chars_within, curl_text, extracted, finish_reason, first_part, is_bullet,
    opening, paragraph, request_text, slashes, without_bullets,
};
use crate::text::{bytes_before, is_space, numeral, trimmed};
use crate::written::{
    is_writable, json_text, lemma_array_text, lemma_json_round_trip, lemma_object_text, read_back,
};

verus! {

broadcast use vstd::string::group_string_axioms;

// ---------------------------------------------------------------- objects and arrays

/// An object of one member.
pub open spec fn only(k: Seq<char>, v: Json) -> Json {
    Json::Obj(seq![(k, v)])
}

/// An object of two members.
pub open spec fn both(k: Seq<char>, v: Json, l: Seq<char>, w: Json) -> Json {
    Json::Obj(seq![(k, v), (l, w)])
}

/// An array of one element.
pub open spec fn single(v: Json) -> Json {
    Json::Arr(seq![v])
}

proof fn lemma_only(k: Seq<char>, v: Json)
    requires
        is_writable(v),
    ensures
        is_writable(only(k, v)),
        json_text(only(k, v)) == object_text(seq![entry(k, json_text(v))]),
        member(read_back(only(k, v)), k) == Some(read_back(v)),
        forall|l: Seq<char>| l != k ==> (#[trigger] member(read_back(only(k, v)), l)) is None,
{
    let m = seq![(k, v)];
    lemma_object_text(m, seq![entry(k, json_text(v))]);
    lemma_member_back(m, k);
    lemma_step(m, 1, k);
    assert forall|i: int| 0 <= i < m.len() implies is_writable((#[trigger] m[i]).1) by {}
    assert forall|l: Seq<char>| l != k implies (#[trigger] member(read_back(only(k, v)), l))
        is None by {
        lemma_member_back(m, l);
        lemma_step(m, 1, l);
        assert(m[0].0 == k);
        assert(m.take(0).len() == 0);
    }
}

proof fn lemma_two(k: Seq<char>, v: Json, l: Seq<char>, w: Json)
    requires
        is_writable(v),
        is_writable(w),
        k != l,
    ensures
        is_writable(both(k, v, l, w)),
        json_text(both(k, v, l, w)) == object_text(
            seq![entry(k, json_text(v)), entry(l, json_text(w))],
        ),
        member(read_back(both(k, v, l, w)), k) == Some(read_back(v)),
        member(read_back(both(k, v, l, w)), l) == Some(read_back(w)),
        forall|o: Seq<char>|
            o != k && o != l ==> (#[trigger] member(read_back(both(k, v, l, w)), o)) is None,
{
    let m = seq![(k, v), (l, w)];
    lemma_object_text(m, seq![entry(k, json_text(v)), entry(l, json_text(w))]);
    assert(m[0].0 == k && m[1].0 == l);
    lemma_member_back(m, k);
    lemma_step(m, 2, k);
    lemma_step(m, 1, k);
    lemma_member_back(m, l);
    lemma_step(m, 2, l);
    assert forall|i: int| 0 <= i < m.len() implies is_writable((#[trigger] m[i]).1) by {
        assert(i == 0 || i == 1);
    }
    assert forall|o: Seq<char>| o != k && o != l implies (#[trigger] member(
        read_back(both(k, v, l, w)),
        o,
    )) is None by {
        lemma_member_back(m, o);
        lemma_step(m, 2, o);
        lemma_step(m, 1, o);
        assert(m.take(0).len() == 0);
    }
}

proof fn lemma_single(v: Json)
    requires
        is_writable(v),
    ensures
        is_writable(single(v)),
        json_text(single(v)) == array_text(seq![json_text(v)]),
        read_back(single(v)) is Arr,
        read_back(single(v))->Arr_0.len() == 1,
        read_back(single(v))->Arr_0[0] == read_back(v),
{
    let a = seq![v];
    lemma_array_text(a, seq![json_text(v)]);
    lemma_elements_back(a, 1);
    assert forall|i: int| 0 <= i < a.len() implies is_writable(#[trigger] a[i]) by {}
}

proof fn lemma_heat()
    ensures
        is_writable(Json::Num(dec(2, -1))),
{
    let u = one();
    lemma_pow2_pos(1074);
    lemma_whole_exact(1);
    assert(ten(1) == 10) by {
        reveal_with_fuel(ten, 2);
    }
    assert((2 * u) * 1 <= (1 * u) * 10);
    lemma_rounded_order(2 * u, 10, 1 * u, 1);
    let m = rounded(2 * u, 10);
    let w = whole(1);
    assert(w.magnitude() == rounded(1 * u, 1));
    assert(m <= w.magnitude());
    if m < w.magnitude() {
        lemma_magnitude_order(m, w.magnitude());
    }
    let d = dec(2, -1);
    assert(d.magnitude() == m);
    lemma_small_writable(d);
}

// ---------------------------------------------------------------- the request

/// What a request says under a key of the first part of its first content.
pub open spec fn asked(j: Json) -> Option<Json> {
    match member(j, "contents"@) {
        Some(Json::Arr(a)) => if a.len() == 1 {
            match member(a[0], "parts"@) {
                Some(Json::Arr(b)) => if b.len() == 1 {
                    member(b[0], "text"@)
                } else {
                    None
                },
                _ => None,
            }
        } else {
            None
        },
        _ => None,
    }
}

/// A request can be read, and asks with the instruction, a blank line and the facts, for an
/// answer of 2000 tokens at most.
#[verifier::rlimit(60)]
pub proof fn lemma_request(prompt: Seq<char>, facts: Seq<char>)
    ensures
        parsed_json(request_text(prompt, facts)) is Ok,
        asked(parsed_json(request_text(prompt, facts))->Ok_0) == Some(
            Json::Str(prompt + seq!['\n', '\n'] + facts),
        ),
        ({
            let c = member(parsed_json(request_text(prompt, facts))->Ok_0, "generationConfig"@);
            &&& c is Some
            &&& member(c->0, "maxOutputTokens"@) == Some(shown_int(2000))
            &&& member(c->0, "temperature"@) is Some
        }),
{
    reveal_strlit("\n\n");
    reveal_strlit("contents");
    reveal_strlit("generationConfig");
    reveal_strlit("temperature");
    reveal_strlit("maxOutputTokens");
    assert("contents"@.len() == 8 && "generationConfig"@.len() == 16);
    assert("temperature"@.len() == 11 && "maxOutputTokens"@.len() == 15);
    assert("\n\n"@ =~= seq!['\n', '\n']);
    let t = Json::Str(prompt + "\n\n"@ + facts);
    let heat = Json::Num(dec(2, -1));
    let many = num(2000);
    lemma_plain_number(2000);
    assert(is_writable(many));
    assert(is_writable(t));
    lemma_heat();
    let part = only("text"@, t);
    lemma_only("text"@, t);
    lemma_single(part);
    let content = only("parts"@, single(part));
    lemma_only("parts"@, single(part));
    lemma_single(content);
    let config = both("temperature"@, heat, "maxOutputTokens"@, many);
    lemma_two("temperature"@, heat, "maxOutputTokens"@, many);
    let all = both("contents"@, single(content), "generationConfig"@, config);
    lemma_two("contents"@, single(content), "generationConfig"@, config);
    assert(json_text(all) == request_text(prompt, facts));
    lemma_json_round_trip(all);
}

// ---------------------------------------------------------------- the answer

/// An answer with a text and the reason why the model stopped.
pub open spec fn reply(text: Seq<char>, why: Seq<char>) -> Json {
    only(
        "candidates"@,
        single(
            both(
                "content"@,
                only("parts"@, single(only("text"@, Json::Str(text)))),
                "finishReason"@,
                Json::Str(why),
            ),
        ),
    )
}

/// The text of an answer that ended by itself is taken over in one paragraph; one that ended
/// otherwise, and one that says nothing, is no answer.
#[verifier::rlimit(60)]
pub proof fn lemma_reply(text: Seq<char>, why: Seq<char>)
    ensures
        why == "STOP"@ && trimmed(text).len() > 0 ==> extracted(json_text(reply(text, why))) == Ok::<
            Seq<char>,
            Seq<char>,
        >(paragraph(trimmed(text))),
        why == "STOP"@ && trimmed(text).len() == 0 ==> extracted(json_text(reply(text, why)))
            is Err,
        why != "STOP"@ ==> extracted(json_text(reply(text, why))) is Err,
{
    reveal_strlit("content");
    reveal_strlit("finishReason");
    reveal_strlit("candidates");
    reveal_strlit("error");
    assert("content"@.len() == 7 && "finishReason"@.len() == 12);
    assert("candidates"@.len() == 10 && "error"@.len() == 5);
    let t = Json::Str(text);
    let w = Json::Str(why);
    lemma_only("text"@, t);
    let part = only("text"@, t);
    lemma_single(part);
    lemma_only("parts"@, single(part));
    let content = only("parts"@, single(part));
    lemma_two("content"@, content, "finishReason"@, w);
    let c = both("content"@, content, "finishReason"@, w);
    lemma_single(c);
    lemma_only("candidates"@, single(c));
    let all = reply(text, why);
    lemma_json_round_trip(all);
    let v = read_back(all);
    assert(member(v, "error"@) is None);
    assert(candidate(v) == Some(read_back(c)));
    assert(finish_reason(v) == Some(why));
    assert(first_part(read_back(c)) == Some(read_back(part)));
    assert(answer(v) == Some(text));
}

/// An error of the service is no answer, whatever else it comes with.
pub proof fn lemma_error(e: Json, text: Seq<char>, why: Seq<char>, body: Seq<char>)
    requires
        parsed_json(body) is Ok,
        member(parsed_json(body)->Ok_0, "error"@) == Some(e),
    ensures
        extracted(body) is Err,
{
}

// ---------------------------------------------------------------- one paragraph

/// Whether a character marks an item: a dash, a star or a round bullet.
pub open spec fn marks_item(c: char) -> bool {
    c == '-' || c == '*' || c == '\u{2022}'
}

/// Whether a line says something as it stands: no white space is around it and no mark of an
/// item before it.
pub open spec fn is_sentence(l: Seq<char>) -> bool {
    l.len() > 0 && !is_space(l[0]) && !is_space(l.last()) && !marks_item(l[0])
}

/// A sentence is kept as it stands, whether it comes by itself, after a blank, or as an item of
/// a list; a line of which nothing is left is passed over.
#[verifier::rlimit(40)]
pub proof fn lemma_sentence(ls: Seq<Seq<char>>, l: Seq<char>, c: char, b: Seq<char>)
    requires
        is_sentence(l),
        marks_item(c),
        trimmed(b).len() == 0,
    ensures
        ({
            let n = ls.len() as int;
            let held = crate::summarizer::said(ls, n);
            &&& crate::summarizer::said(ls.push(l), n + 1) == held.push(l)
            &&& crate::summarizer::said(ls.push(seq![' '] + l), n + 1) == held.push(l)
            &&& crate::summarizer::said(ls.push(seq![c] + l), n + 1) == held.push(l)
            &&& crate::summarizer::said(ls.push(seq![c] + (seq![' '] + l)), n + 1) == held.push(l)
            &&& crate::summarizer::said(ls.push(b), n + 1) == held
            &&& crate::summarizer::said(ls.push(seq![c]), n + 1) == held
        }),
{
    let n = ls.len() as int;
    assert(is_bullet(c) && !is_bullet(l[0]));
    lemma_said_front(ls, l, n);
    lemma_said_front(ls, seq![' '] + l, n);
    lemma_said_front(ls, seq![c] + l, n);
    lemma_said_front(ls, seq![c] + (seq![' '] + l), n);
    lemma_said_front(ls, b, n);
    lemma_said_front(ls, seq![c], n);
    lemma_bare_trimmed(l);
    assert(without_bullets(l) == l);
    let p = seq![c] + l;
    assert(!is_space(c));
    assert(p[0] == c && p.last() == l.last());
    lemma_bare_trimmed(p);
    assert(p.skip(1) =~= l);
    assert(without_bullets(p) == without_bullets(l));
    let q = seq![c] + (seq![' '] + l);
    assert(q[0] == c && q.last() == l.last());
    lemma_bare_trimmed(q);
    assert(q.skip(1) =~= seq![' '] + l);
    assert(!is_bullet(' '));
    assert((seq![' '] + l)[0] == ' ');
    assert(without_bullets(seq![' '] + l) == seq![' '] + l);
    assert(without_bullets(q) == without_bullets(seq![' '] + l));
    let none = Seq::<char>::empty();
    lemma_bare_trimmed(none);
    assert(trimmed(b) =~= none);
    assert(without_bullets(none) == none);
    let s = seq![c];
    assert(s[0] == c && s.last() == c);
    lemma_bare_trimmed(s);
    assert(s.skip(1) =~= none);
    assert(without_bullets(s) == without_bullets(none));
}

proof fn lemma_said_front(ls: Seq<Seq<char>>, l: Seq<char>, k: int)
    requires
        0 <= k <= ls.len(),
    ensures
        crate::summarizer::said(ls.push(l), k) == crate::summarizer::said(ls, k),
    decreases k,
{
    if k > 0 {
        lemma_said_front(ls, l, k - 1);
        assert(ls.push(l)[k - 1] == ls[k - 1]);
    }
}

// ---------------------------------------------------------------- the opening of a text

/// The opening of a text is what stands at its front, is 200 bytes long at most, and is the
/// whole text or has no room for the next character.
pub proof fn lemma_opening(s: Seq<char>)
    ensures
        opening(s).is_prefix_of(s),
        bytes_before(s, opening(s).len() as int) <= 200,
        opening(s) == s || bytes_before(s, opening(s).len() as int + 1) > 200,
{
    lemma_within(s, 200, 0);
    let k = chars_within(s, 200, 0);
    assert(opening(s) =~= s.subrange(0, k));
    if k == s.len() {
        assert(opening(s) =~= s);
    }
}

proof fn lemma_within(s: Seq<char>, n: nat, k: int)
    requires
        0 <= k <= s.len(),
        bytes_before(s, k) <= n,
    ensures
        k <= chars_within(s, n, k) <= s.len(),
        bytes_before(s, chars_within(s, n, k)) <= n,
        chars_within(s, n, k) < s.len() ==> bytes_before(s, chars_within(s, n, k) + 1) > n,
    decreases s.len() - k,
{
    if k < s.len() && bytes_before(s, k + 1) <= n {
        lemma_within(s, n, k + 1);
    }
}

// ---------------------------------------------------------------- curl

/// Whether a configuration has the line `key = value`.
pub open spec fn sets(t: Seq<char>, key: Seq<char>, value: Seq<char>) -> bool {
    exists|x: Seq<char>, y: Seq<char>| t == #[trigger] (x + key + " = "@ + value + "\n"@ + y) && (
    x.len() == 0 || x.last() == '\n')
}

/// A text between double quotes.
pub open spec fn in_quotes(t: Seq<char>) -> Seq<char> {
    seq!['"'] + t + seq!['"']
}

proof fn lemma_sets(x: Seq<char>, key: Seq<char>, value: Seq<char>, y: Seq<char>)
    requires
        x.len() == 0 || x.last() == '\n',
    ensures
        sets(x + key + " = "@ + value + "\n"@ + y, key, value),
{
}

/// The fixed parts of a configuration of curl, line by line.
#[verifier::rlimit(60)]
proof fn lemma_curl_parts()
    ensures
        "url = \"https://generativelanguage.googleapis.com/v1beta/models/"@ == "url"@ + " = "@
            + seq!['"'] + "https://generativelanguage.googleapis.com/v1beta/models/"@,
        ":generateContent\"\nheader = \"Content-Type: application/json\"\nheader = \"x-goog-api-key: "@
            == ":generateContent"@ + seq!['"'] + "\n"@ + ("header"@ + " = "@ + in_quotes(
            "Content-Type: application/json"@,
        ) + "\n"@) + "header"@ + " = "@ + seq!['"'] + "x-goog-api-key: "@,
        "\"\ndata-binary = \"@"@ == seq!['"'] + "\n"@ + "data-binary"@ + " = "@ + seq!['"'] + "@"@,
        "\"\nrequest = \"POST\"\nsilent\nshow-error\nmax-time = "@ == seq!['"'] + "\n"@ + (
        "request"@ + " = "@ + in_quotes("POST"@) + "\n"@) + "silent\nshow-error\n"@ + "max-time"@
            + " = "@,
        "\n"@.len() == 1,
        "\n"@[0] == '\n',
        "silent\nshow-error\n"@.len() > 0,
        "silent\nshow-error\n"@.last() == '\n',
{
    reveal_strlit("url = \"https://generativelanguage.googleapis.com/v1beta/models/");
    reveal_strlit(":generateContent\"\nheader = \"Content-Type: application/json\"\nheader = \"x-goog-api-key: ");
    reveal_strlit("\"\ndata-binary = \"@");
    reveal_strlit("\"\nrequest = \"POST\"\nsilent\nshow-error\nmax-time = ");
    reveal_strlit("\n");
    reveal_strlit(" = ");
    reveal_strlit("url");
    reveal_strlit("https://generativelanguage.googleapis.com/v1beta/models/");
    reveal_strlit(":generateContent");
    reveal_strlit("header");
    reveal_strlit("x-goog-api-key: ");
    reveal_strlit("Content-Type: application/json");
    reveal_strlit("data-binary");
    reveal_strlit("@");
    reveal_strlit("request");
    reveal_strlit("POST");
    reveal_strlit("max-time");
    reveal_strlit("silent\nshow-error\n");
    assert("url = \"https://generativelanguage.googleapis.com/v1beta/models/"@ =~= "url"@ + " = "@
        + seq!['"'] + "https://generativelanguage.googleapis.com/v1beta/models/"@);
    assert(":generateContent\"\nheader = \"Content-Type: application/json\"\nheader = \"x-goog-api-key: "@
        =~= ":generateContent"@ + seq!['"'] + "\n"@ + ("header"@ + " = "@ + in_quotes(
        "Content-Type: application/json"@,
    ) + "\n"@) + "header"@ + " = "@ + seq!['"'] + "x-goog-api-key: "@);
    assert("\"\ndata-binary = \"@"@ =~= seq!['"'] + "\n"@ + "data-binary"@ + " = "@ + seq!['"']
        + "@"@);
    assert("\"\nrequest = \"POST\"\nsilent\nshow-error\nmax-time = "@ =~= seq!['"'] + "\n"@ + (
    "request"@ + " = "@ + in_quotes("POST"@) + "\n"@) + "silent\nshow-error\n"@ + "max-time"@
        + " = "@);
}

proof fn lemma_lines_set(
    l1: Seq<char>,
    l2: Seq<char>,
    l3: Seq<char>,
    l4: Seq<char>,
    l5: Seq<char>,
    key: Seq<char>,
    value: Seq<char>,
)
    requires
        l2 == key + " = "@ + value + "\n"@,
        l1.len() == 0 || l1.last() == '\n',
    ensures
        sets(l1 + l2 + l3 + l4 + l5, key, value),
{
    lemma_sets(l1, key, value, l3 + l4 + l5);
    assert(l1 + l2 + l3 + l4 + l5 =~= l1 + key + " = "@ + value + "\n"@ + (l3 + l4 + l5));
}

#[verifier::rlimit(60)]
proof fn lemma_seven(
    l1: Seq<char>,
    l2: Seq<char>,
    l3: Seq<char>,
    l4: Seq<char>,
    l5: Seq<char>,
    l6: Seq<char>,
    l7: Seq<char>,
)
    ensures
        ({
            let t = l1 + l2 + l3 + l4 + l5 + l6 + l7;
            let none = Seq::<char>::empty();
            &&& t == none + l1 + (l2 + l3) + (l4 + l5) + (l6 + l7)
            &&& t == l1 + l2 + l3 + (l4 + l5) + (l6 + l7)
            &&& t == (l1 + l2) + l3 + l4 + l5 + (l6 + l7)
            &&& t == (l1 + l2 + l3) + l4 + l5 + l6 + l7
            &&& t == (l1 + l2 + l3 + l4) + l5 + l6 + l7 + none
            &&& t == (l1 + l2 + l3 + l4 + l5 + l6) + l7 + none + none + none
        }),
{
    let t = l1 + l2 + l3 + l4 + l5 + l6 + l7;
    let none = Seq::<char>::empty();
    assert(t =~= none + l1 + (l2 + l3) + (l4 + l5) + (l6 + l7));
    assert(t =~= l1 + l2 + l3 + (l4 + l5) + (l6 + l7));
    assert(t =~= (l1 + l2) + l3 + l4 + l5 + (l6 + l7));
    assert(t =~= (l1 + l2 + l3 + l4) + l5 + l6 + l7 + none);
    assert(t =~= (l1 + l2 + l3 + l4 + l5 + l6) + l7 + none + none + none);
}

#[verifier::rlimit(60)]
proof fn lemma_curl_glued(
    u: Seq<char>,
    eq: Seq<char>,
    site: Seq<char>,
    model: Seq<char>,
    g: Seq<char>,
    nl: Seq<char>,
    l2: Seq<char>,
    h: Seq<char>,
    x: Seq<char>,
    key: Seq<char>,
    d: Seq<char>,
    at: Seq<char>,
    path: Seq<char>,
    l5: Seq<char>,
    l6: Seq<char>,
    m: Seq<char>,
    secs: Seq<char>,
)
    ensures
        ({
            let q = seq!['"'];
            (u + eq + q + site) + model + (g + q + nl + l2 + h + eq + q + x) + key + (q + nl + d
                + eq + q + at) + path + (q + nl + l5 + l6 + m + eq) + secs + nl == (u + eq
                + in_quotes(site + model + g) + nl) + l2 + (h + eq + in_quotes(x + key) + nl) + (d
                + eq + in_quotes(at + path) + nl) + l5 + l6 + (m + eq + secs + nl)
        }),
{
    let q = seq!['"'];
    let l1 = u + eq + in_quotes(site + model + g) + nl;
    let l3 = h + eq + in_quotes(x + key) + nl;
    let l4 = d + eq + in_quotes(at + path) + nl;
    let s1 = (u + eq + q + site) + model + (g + q + nl + l2 + h + eq + q + x);
    assert(s1 =~= l1 + l2 + (h + eq + q + x));
    let s2 = s1 + key + (q + nl + d + eq + q + at);
    assert(s2 =~= l1 + l2 + l3 + (d + eq + q + at));
    let s3 = s2 + path + (q + nl + l5 + l6 + m + eq);
    assert(s3 =~= l1 + l2 + l3 + l4 + l5 + l6 + (m + eq));
    assert(s3 + secs + nl =~= l1 + l2 + l3 + l4 + l5 + l6 + (m + eq + secs + nl));
}

/// curl gets the address of the model, the key in a header, the file of the request and the
/// number of seconds to wait.
#[verifier::rlimit(60)]
pub proof fn lemma_curl(model: Seq<char>, key: Seq<char>, path: Seq<char>, timeout: u32)
    ensures
        ({
            let t = curl_text(model, key, path, timeout);
            &&& sets(
                t,
                "url"@,
                in_quotes(
                    "https://generativelanguage.googleapis.com/v1beta/models/"@ + model
                        + ":generateContent"@,
                ),
            )
            &&& sets(t, "header"@, in_quotes("x-goog-api-key: "@ + key))
            &&& sets(t, "header"@, in_quotes("Content-Type: application/json"@))
            &&& sets(t, "data-binary"@, in_quotes("@"@ + slashes(path)))
            &&& sets(t, "request"@, in_quotes("POST"@))
            &&& sets(t, "max-time"@, numeral(timeout as nat))
        }),
{
    lemma_curl_parts();
    let t = curl_text(model, key, path, timeout);
    let nl = "\n"@;
    let eq = " = "@;
    let none = Seq::<char>::empty();
    let q = seq!['"'];
    let site = "https://generativelanguage.googleapis.com/v1beta/models/"@;
    let url = in_quotes(site + model + ":generateContent"@);
    let kind = in_quotes("Content-Type: application/json"@);
    let secret = in_quotes("x-goog-api-key: "@ + key);
    let file = in_quotes("@"@ + slashes(path));
    let post = in_quotes("POST"@);
    let secs = numeral(timeout as nat);
    let l1 = "url"@ + eq + url + nl;
    let l2 = "header"@ + eq + kind + nl;
    let l3 = "header"@ + eq + secret + nl;
    let l4 = "data-binary"@ + eq + file + nl;
    let l5 = "request"@ + eq + post + nl;
    let l6 = "silent\nshow-error\n"@;
    let l7 = "max-time"@ + eq + secs + nl;
    lemma_curl_glued(
        "url"@,
        eq,
        site,
        model,
        ":generateContent"@,
        nl,
        l2,
        "header"@,
        "x-goog-api-key: "@,
        key,
        "data-binary"@,
        "@"@,
        slashes(path),
        l5,
        l6,
        "max-time"@,
        secs,
    );
    assert(t == l1 + l2 + l3 + l4 + l5 + l6 + l7);
    lemma_seven(l1, l2, l3, l4, l5, l6, l7);
    assert(l1.last() == '\n' && l2.last() == '\n' && l3.last() == '\n');
    assert(l4.last() == '\n' && l5.last() == '\n');
    lemma_lines_set(none, l1, l2 + l3, l4 + l5, l6 + l7, "url"@, url);
    lemma_lines_set(l1, l2, l3, l4 + l5, l6 + l7, "header"@, kind);
    lemma_lines_set(l1 + l2, l3, l4, l5, l6 + l7, "header"@, secret);
    lemma_lines_set(l1 + l2 + l3, l4, l5, l6, l7, "data-binary"@, file);
    lemma_lines_set(l1 + l2 + l3 + l4, l5, l6, l7, none, "request"@, post);
    lemma_lines_set(l1 + l2 + l3 + l4 + l5 + l6, l7, none, none, none, "max-time"@, secs);
}

} // verus!
