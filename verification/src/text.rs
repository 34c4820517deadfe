//! Character-level text utilities shared by the mesh, the CLI and the judge:
//! conversions between `str` and character vectors, decimal rendering,
//! Unicode whitespace handling, and the bounded claim excerpt used by
//! structured lateral exchange.
use vstd::prelude::*;
use vstd::std_specs::iter::IteratorSpec;

verus! {

// ---------------------------------------------------------------------------
// Conversions
// ---------------------------------------------------------------------------

/// The characters of `s`, in order.
pub fn chars_of(s: &str) -> (v: Vec<char>)
    ensures
        v@ == s@,
{
    let mut v: Vec<char> = Vec::new();
    let mut chars_it = s.chars();
    for c in it: chars_it
        invariant
            v@ == it.seq().take(it.index() as int),
            it.seq() == s@,
    {
        v.push(c);
    }
    v
}

/// Collects a character slice into an owned `String`
/// (`FromIterator<char>` for `String`): the result holds exactly `v`'s
/// characters, in order.
#[verifier::external_body]
pub(crate) fn string_of(v: &[char]) -> (s: String)
    ensures
        s@ == v@,
{
    v.iter().collect()
}

/// Appends the characters of `s` to `v`.
pub fn push_str(v: &mut Vec<char>, s: &str)
    ensures
        final(v)@ == old(v)@ + s@,
{
    let cs = chars_of(s);
    let mut i: usize = 0;
    while i < cs.len()
        invariant
            0 <= i <= cs@.len(),
            cs@ == s@,
            v@ == old(v)@ + cs@.take(i as int),
        decreases cs@.len() - i,
    {
        v.push(cs[i]);
        i = i + 1;
        assert(cs@.take(i as int) == cs@.take((i - 1) as int).push(cs@[i - 1]));
    }
    assert(cs@.take(cs@.len() as int) == cs@);
}

/// Appends the characters of `s` to `v`.
pub fn push_chars(v: &mut Vec<char>, s: &Vec<char>)
    ensures
        final(v)@ == old(v)@ + s@,
{
    let mut i: usize = 0;
    while i < s.len()
        invariant
            0 <= i <= s@.len(),
            v@ == old(v)@ + s@.take(i as int),
        decreases s@.len() - i,
    {
        v.push(s[i]);
        i = i + 1;
        assert(s@.take(i as int) == s@.take((i - 1) as int).push(s@[i - 1]));
    }
    assert(s@.take(s@.len() as int) == s@);
}

/// A copy of `s`.
pub fn copy_string(s: &String) -> (r: String)
    ensures
        r@ == s@,
{
    let v = chars_of(s.as_str());
    string_of(&v)
}

/// The owned copy of a string slice.
pub fn own_str(s: &str) -> (r: String)
    ensures
        r@ == s@,
{
    let v = chars_of(s);
    string_of(&v)
}

/// Whether two strings hold the same characters.
pub fn str_eq(a: &str, b: &str) -> (r: bool)
    ensures
        r == (a@ == b@),
{
    let av = chars_of(a);
    let bv = chars_of(b);
    if av.len() != bv.len() {
        return false;
    }
    let mut i: usize = 0;
    while i < av.len()
        invariant
            0 <= i <= av@.len(),
            av@.len() == bv@.len(),
            av@ == a@,
            bv@ == b@,
            forall|j: int| 0 <= j < i ==> av@[j] == bv@[j],
        decreases av@.len() - i,
    {
        if av[i] != bv[i] {
            return false;
        }
        i = i + 1;
    }
    assert(av@ =~= bv@);
    true
}

// ---------------------------------------------------------------------------
// Decimal rendering
// ---------------------------------------------------------------------------

/// The ASCII digit for `d < 10`.
pub open spec fn digit_char(d: nat) -> char {
    if d == 0 { '0' }
    else if d == 1 { '1' }
    else if d == 2 { '2' }
    else if d == 3 { '3' }
    else if d == 4 { '4' }
    else if d == 5 { '5' }
    else if d == 6 { '6' }
    else if d == 7 { '7' }
    else if d == 8 { '8' }
    else { '9' }
}

/// The decimal rendering of `n`, most significant digit first, without
/// leading zeros (`"0"` for zero).
pub open spec fn decimal(n: nat) -> Seq<char>
    decreases n,
{
    if n < 10 {
        seq![digit_char(n)]
    } else {
        decimal(n / 10) + seq![digit_char(n % 10)]
    }
}

/// `decimal(n)` left-padded with `'0'` to at least `width` characters.
pub open spec fn decimal_padded(n: nat, width: nat) -> Seq<char> {
    let d = decimal(n);
    if d.len() >= width {
        d
    } else {
        Seq::new((width - d.len()) as nat, |i: int| '0') + d
    }
}

fn digit(d: u64) -> (c: char)
    requires
        d < 10,
    ensures
        c == digit_char(d as nat),
{
    if d == 0 { '0' }
    else if d == 1 { '1' }
    else if d == 2 { '2' }
    else if d == 3 { '3' }
    else if d == 4 { '4' }
    else if d == 5 { '5' }
    else if d == 6 { '6' }
    else if d == 7 { '7' }
    else if d == 8 { '8' }
    else { '9' }
}

proof fn lemma_decimal_len_pos(n: nat)
    ensures
        decimal(n).len() >= 1,
    decreases n,
{
    if n >= 10 {
        lemma_decimal_len_pos(n / 10);
    }
}

/// Decimal digits of `n`, most significant first.
pub fn decimal_chars(n: u64) -> (v: Vec<char>)
    ensures
        v@ == decimal(n as nat),
    decreases n,
{
    if n < 10 {
        let mut v: Vec<char> = Vec::new();
        v.push(digit(n));
        v
    } else {
        let mut v = decimal_chars(n / 10);
        v.push(digit(n % 10));
        v
    }
}

/// Appends the decimal rendering of `n` to `v`.
pub fn push_decimal(v: &mut Vec<char>, n: u64)
    ensures
        final(v)@ == old(v)@ + decimal(n as nat),
{
    let d = decimal_chars(n);
    push_chars(v, &d);
}

/// Appends `decimal_padded(n, width)` to `v`.
pub fn push_decimal_padded(v: &mut Vec<char>, n: u64, width: usize)
    ensures
        final(v)@ == old(v)@ + decimal_padded(n as nat, width as nat),
{
    let d = decimal_chars(n);
    if d.len() < width {
        let ghost before = v@;
        let mut k: usize = 0;
        let pad = width - d.len();
        while k < pad
            invariant
                0 <= k <= pad,
                v@ == before + Seq::new(k as nat, |i: int| '0'),
            decreases pad - k,
        {
            v.push('0');
            k = k + 1;
            assert(v@ =~= before + Seq::new(k as nat, |i: int| '0'));
        }
        push_chars(v, &d);
        assert(v@ =~= before + decimal_padded(n as nat, width as nat));
    } else {
        push_chars(v, &d);
    }
}

/// The decimal rendering of `n`.
pub fn decimal_string(n: u64) -> (s: String)
    ensures
        s@ == decimal(n as nat),
{
    let v = decimal_chars(n);
    string_of(&v)
}

// ---------------------------------------------------------------------------
// Unicode whitespace
// ---------------------------------------------------------------------------

/// The Unicode `White_Space` property (the set `char::is_whitespace`
/// documents): U+0009..U+000D, U+0020, U+0085, U+00A0, U+1680,
/// U+2000..U+200A, U+2028, U+2029, U+202F, U+205F and U+3000.
pub open spec fn is_ws(c: char) -> bool {
    let u = c as u32;
    ||| 0x09 <= u <= 0x0d
    ||| u == 0x20
    ||| u == 0x85
    ||| u == 0xa0
    ||| u == 0x1680
    ||| 0x2000 <= u <= 0x200a
    ||| u == 0x2028
    ||| u == 0x2029
    ||| u == 0x202f
    ||| u == 0x205f
    ||| u == 0x3000
}

/// Whether `c` is Unicode whitespace.
pub fn is_whitespace(c: char) -> (r: bool)
    ensures
        r == is_ws(c),
{
    let u = c as u32;
    (0x09 <= u && u <= 0x0d) || u == 0x20 || u == 0x85 || u == 0xa0 || u == 0x1680 || (0x2000
        <= u && u <= 0x200a) || u == 0x2028 || u == 0x2029 || u == 0x202f || u == 0x205f || u
        == 0x3000
}

/// `s` without its leading whitespace.
pub open spec fn trim_start_seq(s: Seq<char>) -> Seq<char>
    decreases s.len(),
{
    if s.len() > 0 && is_ws(s[0]) {
        trim_start_seq(s.drop_first())
    } else {
        s
    }
}

/// `s` without its trailing whitespace.
pub open spec fn trim_end_seq(s: Seq<char>) -> Seq<char>
    decreases s.len(),
{
    if s.len() > 0 && is_ws(s.last()) {
        trim_end_seq(s.drop_last())
    } else {
        s
    }
}

/// `s` without leading and trailing whitespace (`str::trim`).
pub open spec fn trim_seq(s: Seq<char>) -> Seq<char> {
    trim_end_seq(trim_start_seq(s))
}

/// Index of the first non-whitespace character at or after `i`
/// (or `v.len()`).
fn skip_ws_forward(v: &Vec<char>, i: usize) -> (j: usize)
    requires
        i <= v@.len(),
    ensures
        i <= j <= v@.len(),
        trim_start_seq(v@.subrange(i as int, v@.len() as int)) == v@.subrange(
            j as int,
            v@.len() as int,
        ),
{
    let mut j = i;
    while j < v.len() && is_whitespace(v[j])
        invariant
            i <= j <= v@.len(),
            trim_start_seq(v@.subrange(i as int, v@.len() as int)) == trim_start_seq(
                v@.subrange(j as int, v@.len() as int),
            ),
        decreases v@.len() - j,
    {
        assert(v@.subrange(j as int, v@.len() as int).drop_first() =~= v@.subrange(
            j + 1,
            v@.len() as int,
        ));
        j = j + 1;
    }
    j
}

/// Length of `v[..end]` without its trailing whitespace.
fn skip_ws_backward(v: &Vec<char>, end: usize) -> (j: usize)
    requires
        end <= v@.len(),
    ensures
        j <= end,
        trim_end_seq(v@.subrange(0, end as int)) == v@.subrange(0, j as int),
{
    let mut j = end;
    while j > 0 && is_whitespace(v[j - 1])
        invariant
            j <= end <= v@.len(),
            trim_end_seq(v@.subrange(0, end as int)) == trim_end_seq(v@.subrange(0, j as int)),
        decreases j,
    {
        assert(v@.subrange(0, j as int).drop_last() =~= v@.subrange(0, j - 1));
        j = j - 1;
    }
    j
}

/// `s` with leading and trailing whitespace removed.
pub fn trim_chars(v: &Vec<char>) -> (r: Vec<char>)
    ensures
        r@ == trim_seq(v@),
{
    let start = skip_ws_forward(v, 0);
    assert(v@.subrange(0, v@.len() as int) =~= v@);
    let mut rest: Vec<char> = Vec::new();
    let mut i = start;
    while i < v.len()
        invariant
            start <= i <= v@.len(),
            rest@ == v@.subrange(start as int, i as int),
        decreases v@.len() - i,
    {
        rest.push(v[i]);
        i = i + 1;
        assert(rest@ =~= v@.subrange(start as int, i as int));
    }
    let end = skip_ws_backward(&rest, rest.len());
    assert(rest@.subrange(0, rest@.len() as int) =~= rest@);
    let mut out: Vec<char> = Vec::new();
    let mut k: usize = 0;
    while k < end
        invariant
            end <= rest@.len(),
            0 <= k <= end,
            out@ == rest@.subrange(0, k as int),
        decreases end - k,
    {
        out.push(rest[k]);
        k = k + 1;
        assert(out@ =~= rest@.subrange(0, k as int));
    }
    out
}

/// Whether `s` is empty or only whitespace (`s.trim().is_empty()`).
pub fn is_blank(s: &str) -> (r: bool)
    ensures
        r == (trim_seq(s@).len() == 0),
{
    let v = chars_of(s);
    let t = trim_chars(&v);
    t.len() == 0
}

// ---------------------------------------------------------------------------
// Whitespace normalization and the bounded claim excerpt
// ---------------------------------------------------------------------------

/// Left-to-right whitespace normalization state of `s`: the text emitted
/// so far and whether a separating space is pending. Words (maximal runs of
/// non-whitespace) are emitted separated by exactly one `' '`; leading and
/// trailing whitespace disappear.
pub open spec fn normalize_state(s: Seq<char>) -> (Seq<char>, bool)
    decreases s.len(),
{
    if s.len() == 0 {
        (Seq::empty(), false)
    } else {
        let (o, pending) = normalize_state(s.drop_last());
        let c = s.last();
        if is_ws(c) {
            (o, o.len() > 0)
        } else if pending {
            (o + seq![' ', c], false)
        } else {
            (o.push(c), false)
        }
    }
}

/// The words of `s` joined by single spaces
/// (`s.split_whitespace().collect::<Vec<_>>().join(" ")`).
pub open spec fn normalize_ws(s: Seq<char>) -> Seq<char> {
    normalize_state(s).0
}

/// The words of `s` joined by single spaces.
pub fn normalize_whitespace(s: &str) -> (r: Vec<char>)
    ensures
        r@ == normalize_ws(s@),
{
    let v = chars_of(s);
    let mut out: Vec<char> = Vec::new();
    let mut pending = false;
    let mut i: usize = 0;
    while i < v.len()
        invariant
            0 <= i <= v@.len(),
            v@ == s@,
            (out@, pending) == normalize_state(v@.take(i as int)),
        decreases v@.len() - i,
    {
        let c = v[i];
        assert(v@.take(i + 1).drop_last() =~= v@.take(i as int));
        if is_whitespace(c) {
            pending = out.len() > 0;
        } else {
            if pending {
                out.push(' ');
            }
            out.push(c);
            pending = false;
        }
        i = i + 1;
    }
    assert(v@.take(v@.len() as int) =~= v@);
    out
}

/// Sentence-ending punctuation.
pub open spec fn is_sentence_end(c: char) -> bool {
    c == '.' || c == '!' || c == '?'
}

/// The smallest `i < limit` with `is_sentence_end(s[i])`, if any.
pub open spec fn first_sentence_end(s: Seq<char>, limit: int) -> Option<int>
    decreases limit,
{
    if limit <= 0 {
        None
    } else {
        match first_sentence_end(s, limit - 1) {
            Some(i) => Some(i),
            None => if is_sentence_end(s[limit - 1]) {
                Some(limit - 1)
            } else {
                None
            },
        }
    }
}

/// The largest `i < limit` with `s[i] == ' '`, if any.
pub open spec fn last_space(s: Seq<char>, limit: int) -> Option<int>
    decreases limit,
{
    if limit <= 0 {
        None
    } else if s[limit - 1] == ' ' {
        Some(limit - 1)
    } else {
        last_space(s, limit - 1)
    }
}

/// The bounded claim excerpt of `prediction` (see [`bounded_claim_excerpt`]).
pub open spec fn claim_excerpt(prediction: Seq<char>, max_chars: nat) -> Seq<char> {
    let norm = normalize_ws(prediction);
    if norm.len() <= max_chars {
        norm
    } else {
        let sentence = first_sentence_end(norm, max_chars as int);
        let cut = match sentence {
            Some(i) => i + 1,
            None => match last_space(norm, max_chars as int) {
                Some(i) => i,
                None => max_chars as int,
            },
        };
        let trimmed = trim_end_seq(norm.take(cut));
        if trimmed.len() == 0 {
            Seq::empty()
        } else if sentence is Some {
            trimmed
        } else {
            trimmed + seq![' ', '…']
        }
    }
}

/// Bound a source prediction to a terse "claim excerpt" for structured
/// lateral injection. Whitespace is normalized, then the text is truncated
/// char-safely just after the first sentence boundary within `max_chars` characters,
/// or — if there is none — to the last word boundary (a hard cut at
/// `max_chars` when there is no space either). An ellipsis marks mid-text
/// truncation; sentence-complete excerpts get none. Empty or
/// whitespace-only input yields an empty string.
pub fn bounded_claim_excerpt(prediction: &str, max_chars: usize) -> (r: String)
    ensures
        r@ == claim_excerpt(prediction@, max_chars as nat),
        r@.len() <= max_chars + 2,
{
    let chars = normalize_whitespace(prediction);
    if chars.len() <= max_chars {
        return string_of(&chars);
    }
    let ghost norm = chars@;
    // First sentence-ending punctuation within the window.
    let mut cut: usize = 0;
    let mut hit_sentence = false;
    let mut i: usize = 0;
    while i < max_chars
        invariant
            0 <= i <= max_chars < chars@.len(),
            chars@ == norm,
            hit_sentence == (first_sentence_end(norm, i as int) is Some),
            hit_sentence ==> cut == first_sentence_end(norm, i as int)->0 + 1,
            !hit_sentence ==> cut == 0,
            cut <= i,
        decreases max_chars - i,
    {
        if !hit_sentence && (chars[i] == '.' || chars[i] == '!' || chars[i] == '?') {
            cut = i + 1;
            hit_sentence = true;
        }
        i = i + 1;
    }
    if !hit_sentence {
        // No sentence boundary in the window: trim back to the last space,
        // or hard-cut at max_chars.
        let mut j: usize = max_chars;
        while j > 0 && chars[j - 1] != ' '
            invariant
                j <= max_chars < chars@.len(),
                chars@ == norm,
                last_space(norm, max_chars as int) == last_space(norm, j as int),
            decreases j,
        {
            j = j - 1;
        }
        cut = if j > 0 { j - 1 } else { max_chars };
    }
    let mut excerpt: Vec<char> = Vec::new();
    let mut k: usize = 0;
    while k < cut
        invariant
            cut <= max_chars < chars@.len(),
            chars@ == norm,
            0 <= k <= cut,
            excerpt@ == norm.take(k as int),
        decreases cut - k,
    {
        excerpt.push(chars[k]);
        k = k + 1;
        assert(excerpt@ =~= norm.take(k as int));
    }
    let end = skip_ws_backward(&excerpt, excerpt.len());
    assert(excerpt@.subrange(0, excerpt@.len() as int) =~= excerpt@);
    if end == 0 {
        return String::new();
    }
    let mut out: Vec<char> = Vec::new();
    let mut m: usize = 0;
    while m < end
        invariant
            end <= excerpt@.len(),
            0 <= m <= end,
            out@ == excerpt@.subrange(0, m as int),
        decreases end - m,
    {
        out.push(excerpt[m]);
        m = m + 1;
        assert(out@ =~= excerpt@.subrange(0, m as int));
    }
    if !hit_sentence {
        out.push(' ');
        out.push('…');
    }
    string_of(&out)
}

// ---------------------------------------------------------------------------
// JSON block extraction
// ---------------------------------------------------------------------------

/// The first index of `c` in `s`, if any.
pub open spec fn first_index_of(s: Seq<char>, c: char) -> Option<int> {
    if exists|i: int| 0 <= i < s.len() && s[i] == c {
        Some(choose|i: int| 0 <= i < s.len() && s[i] == c && forall|j: int| 0 <= j < i ==> s[j] != c)
    } else {
        None
    }
}

/// The last index of `c` in `s`, if any.
pub open spec fn last_index_of(s: Seq<char>, c: char) -> Option<int> {
    if exists|i: int| 0 <= i < s.len() && s[i] == c {
        Some(choose|i: int| 0 <= i < s.len() && s[i] == c && forall|j: int| i < j < s.len() ==> s[j] != c)
    } else {
        None
    }
}

/// The outermost `{ ... }` block of `content`: from the first `'{'` through
/// the last `'}'`, or the whole text when there is no such ordered pair.
pub open spec fn json_block(content: Seq<char>) -> Seq<char> {
    match (first_index_of(content, '{'), last_index_of(content, '}')) {
        (Some(s), Some(e)) => if s <= e {
            content.subrange(s, e + 1)
        } else {
            content
        },
        _ => content,
    }
}

/// Return the outermost `{ ... }` block of `content`, falling back to the
/// whole string when no balanced block is found. This lets a parser tolerate
/// minor conversational filler around a JSON object.
pub fn extract_json_block(content: &str) -> (r: &str)
    ensures
        r@ == json_block(content@),
{
    let v = chars_of(content);
    let n = v.len();
    let mut s: usize = 0;
    while s < n && v[s] != '{'
        invariant
            0 <= s <= n == v@.len(),
            v@ == content@,
            forall|j: int| 0 <= j < s ==> v@[j] != '{',
        decreases n - s,
    {
        s = s + 1;
    }
    let mut e: usize = n;
    while e > 0 && v[e - 1] != '}'
        invariant
            0 <= e <= n == v@.len(),
            v@ == content@,
            forall|j: int| e <= j < n ==> v@[j] != '}',
        decreases e,
    {
        e = e - 1;
    }
    if s < n && e > 0 {
        assert(first_index_of(content@, '{') == Some(s as int)) by {
            assert(content@[s as int] == '{');
            let w = choose|i: int|
                0 <= i < content@.len() && content@[i] == '{' && forall|j: int|
                    0 <= j < i ==> content@[j] != '{';
            assert(w == s);
        }
        assert(last_index_of(content@, '}') == Some(e - 1)) by {
            assert(content@[e - 1] == '}');
            let w = choose|i: int|
                0 <= i < content@.len() && content@[i] == '}' && forall|j: int|
                    i < j < content@.len() ==> content@[j] != '}';
            assert(w == e - 1);
        }
        if s <= e - 1 {
            return content.substring_char(s, e);
        }
    } else if s >= n {
        assert(first_index_of(content@, '{') is None);
    } else {
        assert(last_index_of(content@, '}') is None);
    }
    content
}

// ---------------------------------------------------------------------------
// Shell quoting
// ---------------------------------------------------------------------------

/// Characters that need no shell quoting.
pub open spec fn shell_safe(c: char) -> bool {
    ('a' <= c <= 'z') || ('A' <= c <= 'Z') || ('0' <= c <= '9') || c == '-' || c == '_' || c
        == '=' || c == '.' || c == '/' || c == ':'
}

/// `s` with every `'` replaced by `'\''`.
pub open spec fn escape_quotes(s: Seq<char>) -> Seq<char>
    decreases s.len(),
{
    if s.len() == 0 {
        Seq::empty()
    } else {
        let rest = escape_quotes(s.drop_last());
        if s.last() == '\'' {
            rest + seq!['\'', '\\', '\'', '\'']
        } else {
            rest.push(s.last())
        }
    }
}

/// POSIX-shell rendering of one argument.
pub open spec fn shell_quoted(s: Seq<char>) -> Seq<char> {
    if forall|i: int| 0 <= i < s.len() ==> shell_safe(#[trigger] s[i]) {
        s
    } else {
        seq!['\''] + escape_quotes(s) + seq!['\'']
    }
}

/// Render one argument for a POSIX shell: unchanged when it is made only of
/// ASCII alphanumerics and `-_=./:`, otherwise single-quoted with embedded
/// quotes escaped as `'\''`.
pub fn shell_quote(s: &str) -> (r: String)
    ensures
        r@ == shell_quoted(s@),
{
    let v = chars_of(s);
    let mut all_safe = true;
    let mut escaped: Vec<char> = Vec::new();
    escaped.push('\'');
    let mut i: usize = 0;
    while i < v.len()
        invariant
            0 <= i <= v@.len(),
            v@ == s@,
            all_safe == (forall|j: int| 0 <= j < i ==> shell_safe(#[trigger] v@[j])),
            escaped@ == seq!['\''] + escape_quotes(v@.take(i as int)),
        decreases v@.len() - i,
    {
        let c = v[i];
        let safe = ('a' <= c && c <= 'z') || ('A' <= c && c <= 'Z') || ('0' <= c && c <= '9')
            || c == '-' || c == '_' || c == '=' || c == '.' || c == '/' || c == ':';
        if !safe {
            all_safe = false;
        }
        assert(v@.take(i + 1).drop_last() =~= v@.take(i as int));
        if c == '\'' {
            escaped.push('\'');
            escaped.push('\\');
            escaped.push('\'');
            escaped.push('\'');
        } else {
            escaped.push(c);
        }
        i = i + 1;
        assert(escaped@ =~= seq!['\''] + escape_quotes(v@.take(i as int)));
    }
    assert(v@.take(v@.len() as int) =~= v@);
    if all_safe {
        string_of(&v)
    } else {
        escaped.push('\'');
        string_of(&escaped)
    }
}

// ---------------------------------------------------------------------------
// ASCII case folding and joining
// ---------------------------------------------------------------------------

/// `c` with an ASCII upper-case letter mapped to lower case.
pub open spec fn ascii_lower(c: char) -> char {
    if 'A' <= c && c <= 'Z' {
        ((c as u32) + 32) as char
    } else {
        c
    }
}

/// `s` with ASCII letters lower-cased (`str::to_ascii_lowercase`).
pub open spec fn ascii_lowercase(s: Seq<char>) -> Seq<char> {
    s.map_values(|c: char| ascii_lower(c))
}

/// `v` with ASCII letters lower-cased.
pub fn to_ascii_lowercase(v: &Vec<char>) -> (r: Vec<char>)
    ensures
        r@ == ascii_lowercase(v@),
{
    let mut r: Vec<char> = Vec::new();
    let mut i: usize = 0;
    while i < v.len()
        invariant
            0 <= i <= v@.len(),
            r@ == ascii_lowercase(v@).take(i as int),
        decreases v@.len() - i,
    {
        let c = v[i];
        let l = if 'A' <= c && c <= 'Z' {
            let code: u32 = c as u32;
            let lower: u8 = (code + 32) as u8;
            lower as char
        } else {
            c
        };
        proof {
            if 'A' <= c && c <= 'Z' {
                assert(l == ascii_lower(c)) by {
                    assert((c as u32) + 32 < 256);
                }
            }
        }
        r.push(l);
        i = i + 1;
        assert(r@ =~= ascii_lowercase(v@).take(i as int));
    }
    assert(ascii_lowercase(v@).take(i as int) =~= ascii_lowercase(v@));
    r
}

/// The parts joined with `sep` between consecutive parts.
pub open spec fn join(parts: Seq<Seq<char>>, sep: Seq<char>) -> Seq<char>
    decreases parts.len(),
{
    if parts.len() == 0 {
        Seq::empty()
    } else if parts.len() == 1 {
        parts[0]
    } else {
        join(parts.drop_last(), sep) + sep + parts.last()
    }
}

/// Appends the parts, joined with `sep`, to `v`.
pub fn push_joined(v: &mut Vec<char>, parts: &Vec<String>, sep: &str)
    ensures
        final(v)@ == old(v)@ + join(parts@.map_values(|s: String| s@), sep@),
{
    let ghost pv = parts@.map_values(|s: String| s@);
    let mut i: usize = 0;
    while i < parts.len()
        invariant
            0 <= i <= parts@.len(),
            pv == parts@.map_values(|s: String| s@),
            v@ == old(v)@ + join(pv.take(i as int), sep@),
        decreases parts@.len() - i,
    {
        let ghost before = v@;
        if i > 0 {
            push_str(v, sep);
        }
        push_str(v, parts[i].as_str());
        proof {
            let t = pv.take(i + 1);
            assert(t.drop_last() =~= pv.take(i as int));
            assert(t.last() == parts@[i as int]@);
            if i == 0 {
                assert(join(pv.take(0), sep@) =~= Seq::<char>::empty());
                assert(join(t, sep@) == t[0]);
                assert(v@ =~= old(v)@ + join(t, sep@));
            } else {
                assert(v@ =~= old(v)@ + join(t, sep@));
            }
        }
        i = i + 1;
    }
    assert(pv.take(i as int) =~= pv);
}

} // verus!
