//! The request to the language model, what is made of its answer, and what is kept between
//! requests.

use vstd::prelude::*;
use crate::decimal::{dec, display, display_text, literal};
use crate::double::{nearest, quotient, saturated, whole, Double};
use crate::json::{
    array_text, entry, json, key_text, lemma_entry, listed, member, num_member, num_text,
    object_text, parse, parsed_json, quoted, text_member, Json, Value, Writer,
};
use crate::summary::{digest_of, digest_with_trend, servers_of, total_watts, watts_over};
use crate::text::{
    bytes_before, char_width, chars_of, eq_str, join, joined, lines, lines_of, numeral, own, part,
    string_of, texts, trim, trimmed, u64_numeral, views,
};

verus! {

broadcast use vstd::string::group_string_axioms;

// ---------------------------------------------------------------- the request

/// The instruction that is sent with every request. It asks for a verdict rather than an
/// inventory, for a word even where nothing is wrong, and for no counting: the facts are
/// counted and judged before they are sent.
pub const PROMPT: &'static str = "연구실 GPU 클러스터 상태 브리핑을 씁니다. 한국어 3~4문장, 250자 이내.

아래 \"판정\"·\"이상 징후\"·\"관측\"에 적힌 사실만 사용하세요.

- **완전한 문장으로 쓰세요.** \"랙 301-513 2408 W\" 처럼 명사만 나열하지 말고,
  \"301-513 랙이 2408 W로 전력을 가장 많이 쓰고 있습니다\" 처럼 서술하세요.
- **어떤 항목을 언급할 때는 왜 언급하는지도 함께 쓰세요.** 임계값이나 이유가 적혀 있으면
  그것을 문장에 넣으세요. 예를 들어 VRAM 수치를 말한다면 그것이 왜 문제인지(추가 할당 시
  OOM 위험) 같이 말해야 읽는 사람이 심각한지 아닌지 압니다. 숫자만 던지지 마세요.
- 이상 징후가 있으면 그것부터. 없으면 \"이상 없음\"으로 시작하세요.
- 전체 규모(GPU 몇 대 중 몇 대 사용 중, 서버 응답 수, 총 전력)를 한 번 말하세요.
  화면에 따로 표시되지 않으므로 이 문장이 유일한 출처입니다.
- 그리고 전력과 열 중 의미 있는 것을 고르세요. 적혀 있는 것을 전부 나열할 필요는 없습니다.
- 직전 브리핑과 비교한 항목이 있으면, 몇 분 전과 비교한 것인지 함께 쓰세요.
- **어느 서버가 비어 있는지는 절대 쓰지 마세요.** 총계는 괜찮지만 한가한 서버의 이름을 대서는 안 됩니다.
- 세거나 계산하거나 판단하지 마세요. 임계 판정과 집계는 이미 끝나 있습니다. 숫자는 그대로 옮기세요.
- 적혀 있지 않은 것은 쓰지 마세요.
- 사실만 진술하세요. 권유하거나 지시하지 마세요.
- 마크다운, 목록, 이모지 금지. 서두 금지.";

/// The body of a request.
pub open spec fn request_text(prompt: Seq<char>, facts: Seq<char>) -> Seq<char> {
    let part = object_text(seq![entry("text"@, quoted(prompt + "\n\n"@ + facts))]);
    let content = object_text(seq![entry("parts"@, array_text(seq![part]))]);
    let config = object_text(
        seq![
            entry("temperature"@, num_text(dec(2, -1))),
            entry("maxOutputTokens"@, num_text(whole(2000))),
        ],
    );
    object_text(
        seq![entry("contents"@, array_text(seq![content])), entry("generationConfig"@, config)],
    )
}

proof fn lemma_one(b: Seq<char>, t: Seq<char>)
    ensures
        b + seq!['{'] + t + seq!['}'] == b + object_text(seq![t]),
        b + seq!['['] + t + seq![']'] == b + array_text(seq![t]),
{
    assert(listed(seq![t]) == t);
    assert(b + seq!['{'] + t + seq!['}'] =~= b + object_text(seq![t]));
    assert(b + seq!['['] + t + seq![']'] =~= b + array_text(seq![t]));
}

fn write_part(w: &mut Writer, text: &str)
    ensures
        final(w).buf@ == old(w).buf@ + object_text(seq![entry("text"@, quoted(text@))]),
{
    let ghost b = w.buf@;
    w.raw("{");
    w.key("text");
    w.str(text);
    w.raw("}");
    proof {
        reveal_strlit("{");
        reveal_strlit("}");
        assert("{"@ =~= seq!['{']);
        assert("}"@ =~= seq!['}']);
        let t = entry("text"@, quoted(text@));
        lemma_one(b, t);
        assert(b + seq!['{'] + key_text("text"@) + quoted(text@) =~= b + seq!['{'] + t);
    }
}

fn write_content(w: &mut Writer, text: &str)
    ensures
        final(w).buf@ == old(w).buf@ + object_text(
            seq![
                entry(
                    "parts"@,
                    array_text(seq![object_text(seq![entry("text"@, quoted(text@))])]),
                ),
            ],
        ),
{
    let ghost b = w.buf@;
    w.raw("{");
    w.key("parts");
    let ghost c = w.buf@;
    w.raw("[");
    write_part(w, text);
    w.raw("]");
    proof {
        reveal_strlit("[");
        reveal_strlit("]");
        assert("["@ =~= seq!['[']);
        assert("]"@ =~= seq![']']);
        lemma_one(c, object_text(seq![entry("text"@, quoted(text@))]));
    }
    let ghost parts = array_text(seq![object_text(seq![entry("text"@, quoted(text@))])]);
    assert(w.buf@ == c + parts);
    w.raw("}");
    proof {
        reveal_strlit("{");
        reveal_strlit("}");
        assert("{"@ =~= seq!['{']);
        assert("}"@ =~= seq!['}']);
        let t = entry("parts"@, parts);
        lemma_one(b, t);
        assert(b + seq!['{'] + key_text("parts"@) + parts =~= b + seq!['{'] + t);
    }
}

fn write_config(w: &mut Writer)
    ensures
        final(w).buf@ == old(w).buf@ + object_text(
            seq![
                entry("temperature"@, num_text(dec(2, -1))),
                entry("maxOutputTokens"@, num_text(whole(2000))),
            ],
        ),
{
    let ghost b0 = w.buf@;
    w.raw("{");
    let ghost b = w.buf@;
    let ghost none: Seq<Seq<char>> = seq![];
    let ghost t = entry("temperature"@, num_text(dec(2, -1)));
    let ghost m = entry("maxOutputTokens"@, num_text(whole(2000)));
    assert(b + listed(none) =~= b);
    w.num_entry(Ghost(b), Ghost(none), true, "temperature", literal(2, -1));
    w.num_entry(
        Ghost(b),
        Ghost(none.push(t)),
        false,
        "maxOutputTokens",
        Double::from_u64(2000),
    );
    w.raw("}");
    proof {
        reveal_strlit("{");
        reveal_strlit("}");
        assert(none.push(t).push(m) =~= seq![t, m]);
        assert(w.buf@ =~= b0 + object_text(seq![t, m]));
    }
}

/// The body of a request. The cap on the answer is generous: what the model thinks to itself
/// counts towards it, and a tight one cuts the answer off.
pub fn request(prompt: &str, facts: &str) -> (r: String)
    ensures
        r@ == request_text(prompt@, facts@),
{
    let mut text = own(prompt);
    text.append("\n\n");
    text.append(facts);
    let ghost content = object_text(
        seq![
            entry("parts"@, array_text(seq![object_text(seq![entry("text"@, quoted(text@))])])),
        ],
    );
    let ghost config = object_text(
        seq![
            entry("temperature"@, num_text(dec(2, -1))),
            entry("maxOutputTokens"@, num_text(whole(2000))),
        ],
    );
    let ghost first = entry("contents"@, array_text(seq![content]));
    let mut w = Writer::new();
    w.raw("{");
    let ghost b = w.buf@;
    w.key("contents");
    let ghost c = w.buf@;
    w.raw("[");
    write_content(&mut w, text.as_str());
    w.raw("]");
    proof {
        reveal_strlit("[");
        reveal_strlit("]");
        assert("["@ =~= seq!['[']);
        assert("]"@ =~= seq![']']);
        lemma_one(c, content);
        assert(listed(seq![first]) == first);
        assert(w.buf@ =~= b + listed(seq![first]));
    }
    w.comma(false);
    w.key("generationConfig");
    write_config(&mut w);
    proof {
        lemma_entry(b, seq![first], "generationConfig"@, config);
    }
    w.raw("}");
    proof {
        reveal_strlit("{");
        reveal_strlit("}");
        let all = seq![first, entry("generationConfig"@, config)];
        assert(seq![first].push(entry("generationConfig"@, config)) =~= all);
        assert(w.buf@ =~= object_text(all));
    }
    w.buf
}

/// A path with forward slashes.
pub open spec fn slashes(s: Seq<char>) -> Seq<char> {
    Seq::new(
        s.len(),
        |i: int|
            if s[i] == '\\' {
                '/'
            } else {
                s[i]
            },
    )
}

/// The configuration of curl for a request.
pub open spec fn curl_text(
    model: Seq<char>,
    key: Seq<char>,
    body_path: Seq<char>,
    timeout: u32,
) -> Seq<char> {
    "url = \"https://generativelanguage.googleapis.com/v1beta/models/"@ + model
        + ":generateContent\"\nheader = \"Content-Type: application/json\"\nheader = \"x-goog-api-key: "@
        + key + "\"\ndata-binary = \"@"@ + slashes(body_path)
        + "\"\nrequest = \"POST\"\nsilent\nshow-error\nmax-time = "@ + numeral(timeout as nat)
        + "\n"@
}

/// The configuration of curl for a request. The key stands here and not on the command line,
/// where any other process could read it. A backslash is an escape in such a file, so the path
/// has forward slashes.
pub fn curl_config(model: &str, key: &str, body_path: &str, timeout: u32) -> (r: String)
    ensures
        r@ == curl_text(model@, key@, body_path@, timeout),
{
    let mut s = own("url = \"https://generativelanguage.googleapis.com/v1beta/models/");
    s.append(model);
    s.append(
        ":generateContent\"\nheader = \"Content-Type: application/json\"\nheader = \"x-goog-api-key: ",
    );
    s.append(key);
    s.append("\"\ndata-binary = \"@");
    s.append(with_slashes(body_path).as_str());
    s.append("\"\nrequest = \"POST\"\nsilent\nshow-error\nmax-time = ");
    s.append(u64_numeral(timeout as u64).as_str());
    s.append("\n");
    s
}

fn with_slashes(p: &str) -> (r: String)
    ensures
        r@ == slashes(p@),
{
    let v = chars_of(p);
    let mut s = String::new();
    let mut i: usize = 0;
    while i < v.len()
        invariant
            i <= v@.len(),
            v@ == p@,
            s@ == slashes(p@).take(i as int),
        decreases v@.len() - i,
    {
        let c: char = if v[i] == '\\' {
            '/'
        } else {
            v[i]
        };
        s.push(c);
        assert(s@ =~= slashes(p@).take(i + 1));
        i = i + 1;
    }
    assert(slashes(p@).take(p@.len() as int) =~= slashes(p@));
    s
}

/// No backslash of the path is left.
pub proof fn lemma_slashes(s: Seq<char>)
    ensures
        !slashes(s).contains('\\'),
        slashes(s).len() == s.len(),
{
}

// ---------------------------------------------------------------- the answer

/// The first candidate of an answer.
pub open spec fn candidate(v: Json) -> Option<Json> {
    match member(v, "candidates"@) {
        Some(Json::Arr(a)) => if a.len() > 0 {
            Some(a[0])
        } else {
            None
        },
        _ => None,
    }
}

/// Why the model stopped.
pub open spec fn finish_reason(v: Json) -> Option<Seq<char>> {
    match candidate(v) {
        Some(c) => match member(c, "finishReason"@) {
            Some(Json::Str(s)) => Some(s),
            _ => None,
        },
        None => None,
    }
}

/// The first part of the content of a candidate.
pub open spec fn first_part(c: Json) -> Option<Json> {
    match member(c, "content"@) {
        Some(k) => match member(k, "parts"@) {
            Some(Json::Arr(a)) => if a.len() > 0 {
                Some(a[0])
            } else {
                None
            },
            _ => None,
        },
        None => None,
    }
}

/// The text of an answer.
pub open spec fn answer(v: Json) -> Option<Seq<char>> {
    match candidate(v) {
        Some(c) => match first_part(c) {
            Some(p) => match member(p, "text"@) {
                Some(Json::Str(s)) => Some(s),
                _ => None,
            },
            None => None,
        },
        None => None,
    }
}

/// How many characters from the front fit in `n` bytes, where the first `k` do.
pub open spec fn chars_within(s: Seq<char>, n: nat, k: int) -> int
    decreases s.len() - k,
{
    if 0 <= k < s.len() && bytes_before(s, k + 1) <= n {
        chars_within(s, n, k + 1)
    } else {
        k
    }
}

/// The first 200 bytes of a text.
pub open spec fn opening(s: Seq<char>) -> Seq<char> {
    s.take(chars_within(s, 200, 0))
}

/// Whether the first 200 bytes of a text end with a character.
pub open spec fn opens_whole(s: Seq<char>) -> bool {
    bytes_before(s, s.len() as int) <= 200 || bytes_before(s, chars_within(s, 200, 0)) == 200
}

/// Whether an answer was given cleanly and yet has no text.
pub open spec fn is_textless(body: Seq<char>) -> bool {
    match parsed_json(body) {
        Ok(v) => member(v, "error"@) is None && (finish_reason(v) matches Some(r) ==> r == "STOP"@)
            && answer(v) is None,
        Err(_) => false,
    }
}

/// Whether `c` marks an item of a list.
pub open spec fn is_bullet(c: char) -> bool {
    c == '-' || c == '*' || c == '\u{2022}'
}

/// A text without the bullets at its front.
pub open spec fn without_bullets(s: Seq<char>) -> Seq<char>
    decreases s.len(),
{
    if s.len() > 0 && is_bullet(s[0]) {
        without_bullets(s.skip(1))
    } else {
        s
    }
}

/// What the first `k` lines say, without bullets and without those that say nothing.
pub open spec fn said(ls: Seq<Seq<char>>, k: int) -> Seq<Seq<char>>
    decreases k,
{
    if k <= 0 {
        seq![]
    } else {
        let t = trimmed(without_bullets(trimmed(ls[k - 1])));
        if t.len() == 0 {
            said(ls, k - 1)
        } else {
            said(ls, k - 1).push(t)
        }
    }
}

/// The text in one paragraph, which the page shows in one line.
pub open spec fn paragraph(t: Seq<char>) -> Seq<char> {
    joined(said(lines(t), lines(t).len() as int), " "@)
}

/// The text of the model's answer, or what came in its place. An answer that was cut off is no
/// answer.
pub open spec fn extracted(body: Seq<char>) -> Result<Seq<char>, Seq<char>> {
    match parsed_json(body) {
        Err(e) => Err("response was not JSON: "@ + e),
        Ok(v) => match member(v, "error"@) {
            Some(e) => Err(
                "API error "@ + display(num_member(e, "code"@, whole(0))) + ": "@ + text_member(
                    e,
                    "message"@,
                    "(no message)"@,
                ),
            ),
            None => if finish_reason(v) matches Some(r) && r != "STOP"@ {
                Err("response did not finish cleanly ("@ + finish_reason(v)->Some_0 + ")"@)
            } else {
                match answer(v) {
                    None => Err("no text in response: "@ + opening(body)),
                    Some(t) => if trimmed(t).len() == 0 {
                        Err("empty text in response"@)
                    } else {
                        Ok(paragraph(trimmed(t)))
                    },
                }
            },
        },
    }
}

fn first_of<'a>(v: &'a Value, key: &str) -> (r: Option<&'a Value>)
    ensures
        match member(v@, key@) {
            Some(Json::Arr(a)) => if a.len() > 0 {
                r matches Some(x) && x@ == a[0]
            } else {
                r is None
            },
            _ => r is None,
        },
{
    match v.get(key) {
        Some(x) => match x.as_arr() {
            Some(a) => if a.len() > 0 {
                assert(json(Value::Arr(*a))->Arr_0[0] == a@[0]@);
                Some(&a[0])
            } else {
                None
            },
            None => None,
        },
        None => None,
    }
}

fn text_of<'a>(v: &'a Value, key: &str) -> (r: Option<&'a str>)
    ensures
        match member(v@, key@) {
            Some(Json::Str(s)) => r matches Some(x) && x@ == s,
            _ => r is None,
        },
{
    match v.get(key) {
        Some(x) => x.as_str(),
        None => None,
    }
}

fn answer_of(v: &Value) -> (r: Option<&str>)
    ensures
        match r {
            Some(s) => answer(v@) == Some(s@),
            None => answer(v@) is None,
        },
{
    match first_of(v, "candidates") {
        Some(c) => match c.get("content") {
            Some(k) => match first_of(k, "parts") {
                Some(p) => text_of(p, "text"),
                None => None,
            },
            None => None,
        },
        None => None,
    }
}

fn reason_of(v: &Value) -> (r: Option<&str>)
    ensures
        match r {
            Some(s) => finish_reason(v@) == Some(s@),
            None => finish_reason(v@) is None,
        },
{
    match first_of(v, "candidates") {
        Some(c) => text_of(c, "finishReason"),
        None => None,
    }
}

proof fn lemma_bytes_order(s: Seq<char>, a: int, b: int)
    requires
        0 <= a <= b <= s.len(),
    ensures
        bytes_before(s, a) <= bytes_before(s, b),
    decreases b,
{
    if a < b {
        lemma_bytes_order(s, a, b - 1);
    }
}

/// How many characters fit in 200 bytes, and how many bytes they have.
fn within(v: &[char]) -> (r: (usize, usize))
    ensures
        r.0 == chars_within(v@, 200, 0),
        r.0 <= v@.len(),
        r.1 == bytes_before(v@, r.0 as int),
        r.1 <= 200,
        r.0 < v@.len() ==> bytes_before(v@, r.0 + 1) > 200,
{
    let mut k: usize = 0;
    let mut n: usize = 0;
    while k < v.len() && n + char_width(v[k]) <= 200
        invariant
            k <= v@.len(),
            n <= 200,
            n == bytes_before(v@, k as int),
            chars_within(v@, 200, 0) == chars_within(v@, 200, k as int),
        decreases v@.len() - k,
    {
        n = n + char_width(v[k]);
        k = k + 1;
    }
    (k, n)
}

/// Whether `extract` can be asked: it can unless the answer was given cleanly, has no text, and
/// has a character across the end of its first 200 bytes.
pub fn can_extract(body: &str) -> (r: bool)
    ensures
        r == (is_textless(body@) ==> opens_whole(body@)),
{
    let v = match parse(body) {
        Ok(v) => v,
        Err(_) => {
            return true;
        },
    };
    if v.get("error").is_some() {
        return true;
    }
    if let Some(r) = reason_of(&v) {
        if !eq_str(r, "STOP") {
            return true;
        }
    }
    if answer_of(&v).is_some() {
        return true;
    }
    let b = chars_of(body);
    let (k, n) = within(b.as_slice());
    proof {
        if k < body@.len() {
            lemma_bytes_order(body@, k + 1, body@.len() as int);
        }
    }
    k == b.len() || n == 200
}

fn skip_bullets(s: &[char]) -> (r: &[char])
    ensures
        r@ == without_bullets(s@),
{
    let mut i: usize = 0;
    assert(s@.skip(0) =~= s@);
    while i < s.len() && (s[i] == '-' || s[i] == '*' || s[i] == '\u{2022}')
        invariant
            i <= s@.len(),
            without_bullets(s@) == without_bullets(s@.skip(i as int)),
        decreases s@.len() - i,
    {
        assert(s@.skip(i as int).skip(1) =~= s@.skip(i + 1));
        i = i + 1;
    }
    let r = part(s, i, s.len());
    assert(r@ =~= s@.skip(i as int));
    r
}

fn one_paragraph(t: &[char]) -> (r: String)
    ensures
        r@ == paragraph(t@),
{
    let ls = lines_of(t);
    let ghost all = lines(t@);
    let mut out: Vec<String> = Vec::new();
    let mut k: usize = 0;
    assert(views(out@) =~= said(all, 0));
    while k < ls.len()
        invariant
            k <= ls@.len(),
            all == texts(ls@),
            views(out@) == said(all, k as int),
        decreases ls@.len() - k,
    {
        assert(all[k as int] == ls@[k as int]@);
        let l = trim(skip_bullets(trim(ls[k].as_slice())));
        if l.len() > 0 {
            let ghost held = views(out@);
            let s = string_of(l);
            out.push(s);
            assert(views(out@) =~= held.push(s@));
        }
        k = k + 1;
    }
    join(&out, " ")
}

/// The text of the model's answer, or what came in its place.
pub fn extract(body: &str) -> (r: Result<String, String>)
    requires
        is_textless(body@) ==> opens_whole(body@),
    ensures
        match r {
            Ok(t) => extracted(body@) == Ok::<Seq<char>, Seq<char>>(t@),
            Err(e) => extracted(body@) == Err::<Seq<char>, Seq<char>>(e@),
        },
{
    let v = match parse(body) {
        Ok(v) => v,
        Err(e) => {
            let mut m = own("response was not JSON: ");
            m.append(e.as_str());
            return Err(m);
        },
    };
    if let Some(e) = v.get("error") {
        let mut m = own("API error ");
        m.append(display_text(e.num_or("code", Double::from_u64(0))).as_str());
        m.append(": ");
        m.append(e.str_or("message", "(no message)"));
        return Err(m);
    }
    if let Some(r) = reason_of(&v) {
        if !eq_str(r, "STOP") {
            let mut m = own("response did not finish cleanly (");
            m.append(r);
            m.append(")");
            return Err(m);
        }
    }
    match answer_of(&v) {
        None => {
            let b = chars_of(body);
            let (k, n) = within(b.as_slice());
            let head = part(b.as_slice(), 0, k);
            assert(head@ =~= opening(body@));
            let mut m = own("no text in response: ");
            m.append(string_of(head).as_str());
            Err(m)
        },
        Some(t) => {
            let c = chars_of(t);
            let clean = trim(c.as_slice());
            if clean.len() == 0 {
                Err(own("empty text in response"))
            } else {
                Ok(one_paragraph(clean))
            }
        },
    }
}

// ---------------------------------------------------------------- between requests

/// What is kept between requests. The text stands until another takes its place, so a request
/// that fails does not blank the page.
pub struct Summarizer {
    pub key_path: String,
    pub model: String,
    pub prompt: String,
    pub timeout: u32,
    pub text: String,
    pub ts: u32,
    pub failures: u32,
    /// The power drawn at the last briefing that was answered, and when that was.
    pub last: Option<(Double, u32)>,
}

/// The power at the last briefing, and how many minutes ago that was.
pub open spec fn trend_at(last: Option<(Double, u32)>, now: u32) -> Option<(Double, u32)> {
    match last {
        Some((w, then_at)) => {
            let secs = if now > then_at {
                now - then_at
            } else {
                0
            };
            Some(
                (
                    w,
                    saturated(nearest(quotient(whole(secs), whole(60))), 0, u32::MAX as int) as u32,
                ),
            )
        },
        None => None,
    }
}

/// A key as it stands in its file, without the white space around it; none where nothing is
/// left.
pub fn clean_key(raw: &str) -> (r: Option<String>)
    ensures
        match r {
            Some(k) => k@ == trimmed(raw@) && k@.len() > 0,
            None => trimmed(raw@).len() == 0,
        },
{
    let v = chars_of(raw);
    let k = trim(v.as_slice());
    if k.len() == 0 {
        None
    } else {
        Some(string_of(k))
    }
}

impl Summarizer {
    /// Nothing has been asked yet.
    pub fn new(key_path: String, model: String) -> (r: Summarizer)
        ensures
            r.key_path == key_path,
            r.model == model,
            r.prompt@ == PROMPT@,
            r.timeout == 30,
            r.text@ == Seq::<char>::empty(),
            r.ts == 0,
            r.failures == 0,
            r.last is None,
    {
        Summarizer {
            key_path,
            model,
            prompt: own(PROMPT),
            timeout: 30,
            text: String::new(),
            ts: 0,
            failures: 0,
            last: None,
        }
    }

    /// Sets for how many seconds an answer is waited for; one at least.
    pub fn set_timeout(&mut self, secs: u32)
        ensures
            *final(self) == (Summarizer {
                timeout: if secs == 0 {
                    1
                } else {
                    secs
                },
                ..*old(self)
            }),
    {
        self.timeout = if secs == 0 {
            1
        } else {
            secs
        };
    }

    /// Sets the instruction.
    pub fn set_prompt(&mut self, p: String)
        ensures
            *final(self) == (Summarizer { prompt: p, ..*old(self) }),
    {
        self.prompt = p;
    }

    /// The instruction.
    pub fn prompt(&self) -> (r: &str)
        ensures
            r@ == self.prompt@,
    {
        self.prompt.as_str()
    }

    /// The name of the model.
    pub fn model(&self) -> (r: &str)
        ensures
            r@ == self.model@,
    {
        self.model.as_str()
    }

    /// The facts to send on a snapshot; none where there is nothing to say.
    pub fn facts(&self, snapshot: &str, now: u32) -> (r: Option<String>)
        ensures
            match r {
                Some(t) => digest_of(snapshot@, trend_at(self.last, now)) == Some(t@),
                None => digest_of(snapshot@, trend_at(self.last, now)) is None,
            },
    {
        let trend: Option<(Double, u32)> = match self.last {
            Some((w, at)) => {
                let secs: u32 = if now > at {
                    now - at
                } else {
                    0
                };
                let mins: u32 = Double::from_u64(secs as u64).over(Double::from_u64(60)).round()
                    .to_range(0, u32::MAX as i128) as u32;
                Some((w, mins))
            },
            None => None,
        };
        digest_with_trend(snapshot, trend)
    }

    /// Takes in what came of a request on a snapshot, and says whether the text is a new one.
    /// Only an answer moves the time that the next briefing is compared with: nobody has read
    /// a request that failed.
    pub fn refresh(&mut self, snapshot: &str, now: u32, outcome: Result<String, String>) -> (r:
        bool)
        ensures
            final(self).key_path == old(self).key_path,
            final(self).model == old(self).model,
            final(self).prompt == old(self).prompt,
            final(self).timeout == old(self).timeout,
            match outcome {
                Ok(t) => {
                    &&& r == (t@ != old(self).text@)
                    &&& final(self).text == t
                    &&& final(self).ts == now
                    &&& final(self).failures == 0
                    &&& final(self).last == match servers_of(snapshot@) {
                        Some(a) => Some((watts_over(a, a.len() as int), now)),
                        None => old(self).last,
                    }
                },
                Err(_) => {
                    &&& !r
                    &&& final(self).text == old(self).text
                    &&& final(self).ts == old(self).ts
                    &&& final(self).last == old(self).last
                    &&& final(self).failures == if old(self).failures == u32::MAX {
                        u32::MAX as int
                    } else {
                        old(self).failures + 1
                    }
                },
            },
    {
        match outcome {
            Ok(t) => {
                self.failures = 0;
                let changed: bool = !eq_str(t.as_str(), self.text.as_str());
                self.text = t;
                self.ts = now;
                if let Some(w) = total_watts(snapshot) {
                    self.last = Some((w, now));
                }
                changed
            },
            Err(_) => {
                if self.failures < u32::MAX {
                    self.failures = self.failures + 1;
                }
                false
            },
        }
    }

    /// Whether a failure is still worth a line in the log: the first three are.
    pub fn is_loud(&self) -> (r: bool)
        ensures
            r == (self.failures <= 3),
    {
        self.failures <= 3
    }
}

} // verus!
