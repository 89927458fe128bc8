//! Instruction text: parsing it into descriptors, and rendering descriptors back to text.
//!
//! The grammar is `line := multiple*`, `multiple := digits? tag`, with whitespace allowed
//! between multiples. A digit run must be followed at once by a tag.
use vstd::prelude::*;
use crate::kind::{MultipleParseChar, ParseChar, all_wf, kind_of_tag, is_tag, tag_of, lemma_tag_bijection};
use crate::text::{digit_char, nat_text, push_decimal};

verus! {

/// Why a piece of instruction text is not a valid line.
#[derive(PartialEq, Eq, Structural, Debug, Clone, Copy)]
pub enum SyntaxError {
    /// A character that is no digit, tag or whitespace, at a character position.
    UnrecognizedCharacter { ch: char, position: usize },
    /// A digit run starting at `position` that is followed by whitespace or the end of the text.
    DigitsWithoutTag { position: usize },
    /// A digit run starting at `position` whose value is zero.
    ZeroCount { position: usize },
    /// A digit run starting at `position` whose value does not fit in a `usize`.
    CountTooLarge { position: usize },
}

pub open spec fn is_space(c: char) -> bool {
    c == ' ' || c == '\t' || c == '\n' || c == '\r'
}

pub open spec fn is_digit(c: char) -> bool {
    '0' <= c && c <= '9'
}

pub open spec fn digit_value(c: char) -> nat {
    (c as nat - '0' as nat) as nat
}

/// The value of a run of decimal digits, most significant first.
pub open spec fn dec_value(d: Seq<char>) -> nat
    decreases d.len(),
{
    if d.len() == 0 {
        0
    } else {
        dec_value(d.drop_last()) * 10 + digit_value(d.last())
    }
}

/// `r` with `prefix` put in front of its descriptors.
pub open spec fn prepend(
    prefix: Seq<MultipleParseChar>,
    r: Result<Seq<MultipleParseChar>, SyntaxError>,
) -> Result<Seq<MultipleParseChar>, SyntaxError> {
    match r {
        Ok(l) => Ok(prefix + l),
        Err(e) => Err(e),
    }
}

/// The outcome of parsing `s` from character position `i` on, between two multiples. Errors
/// are reported at the first offending place from the left.
pub open spec fn parse_from(s: Seq<char>, i: nat) -> Result<Seq<MultipleParseChar>, SyntaxError>
    decreases 2 * (s.len() - i) + 1,
{
    if i >= s.len() {
        Ok(Seq::empty())
    } else {
        let c = s[i as int];
        if is_space(c) {
            parse_from(s, i + 1)
        } else if is_tag(c) {
            prepend(
                seq![MultipleParseChar { kind: kind_of_tag(c)->0, count: 1 }],
                parse_from(s, i + 1),
            )
        } else if is_digit(c) {
            run_from(s, i, i + 1)
        } else {
            Err(SyntaxError::UnrecognizedCharacter { ch: c, position: i as usize })
        }
    }
}

/// The outcome of parsing `s` from position `i` on, inside a digit run that began at `start`.
pub open spec fn run_from(s: Seq<char>, start: nat, i: nat) -> Result<
    Seq<MultipleParseChar>,
    SyntaxError,
>
    decreases 2 * (s.len() - i) + 2,
{
    if i >= s.len() {
        Err(SyntaxError::DigitsWithoutTag { position: start as usize })
    } else {
        let c = s[i as int];
        if is_digit(c) {
            run_from(s, start, i + 1)
        } else if is_space(c) {
            Err(SyntaxError::DigitsWithoutTag { position: start as usize })
        } else if is_tag(c) {
            let n = dec_value(s.subrange(start as int, i as int));
            if n == 0 {
                Err(SyntaxError::ZeroCount { position: start as usize })
            } else if n > usize::MAX {
                Err(SyntaxError::CountTooLarge { position: start as usize })
            } else {
                prepend(
                    seq![MultipleParseChar { kind: kind_of_tag(c)->0, count: n as usize }],
                    parse_from(s, i + 1),
                )
            }
        } else {
            Err(SyntaxError::UnrecognizedCharacter { ch: c, position: i as usize })
        }
    }
}

/// The outcome of parsing the whole of `s`.
pub open spec fn parse_spec(s: Seq<char>) -> Result<Seq<MultipleParseChar>, SyntaxError> {
    parse_from(s, 0)
}

proof fn lemma_dec_value_grows(d: Seq<char>, c: char)
    requires
        is_digit(c),
    ensures
        dec_value(d.push(c)) == dec_value(d) * 10 + digit_value(c),
        dec_value(d.push(c)) >= dec_value(d),
{
    assert(d.push(c).drop_last() =~= d);
}

/// The characters of `s`, in order.
fn chars_of(s: &str) -> (r: Vec<char>)
    ensures
        r@ == s@,
{
    let n = s.unicode_len();
    let mut r: Vec<char> = Vec::new();
    let mut i: usize = 0;
    while i < n
        invariant
            n == s@.len(),
            i <= n,
            r@ == s@.subrange(0, i as int),
        decreases n - i,
    {
        r.push(s.get_char(i));
        i = i + 1;
    }
    r
}

/// Parses a line of instruction text into its descriptors, in textual order.
pub fn parse_input(input: &str) -> (r: Result<Vec<MultipleParseChar>, SyntaxError>)
    ensures
        match r {
            Ok(v) => parse_spec(input@) == Ok::<Seq<MultipleParseChar>, SyntaxError>(v@),
            Err(e) => parse_spec(input@) == Err::<Seq<MultipleParseChar>, SyntaxError>(e),
        },
{
    let chars = chars_of(input);
    let n = chars.len();
    let ghost s = input@;
    let mut out: Vec<MultipleParseChar> = Vec::new();
    let mut i: usize = 0;
    while i < n
        invariant
            n == s.len(),
            s == input@,
            chars@ == s,
            i <= n,
            parse_spec(s) == prepend(out@, parse_from(s, i as nat)),
        decreases n - i,
    {
        let c = chars[i];
        if c == ' ' || c == '\t' || c == '\n' || c == '\r' {
            i = i + 1;
        } else if let Some(kind) = ParseChar::from_tag(c) {
            let d = MultipleParseChar::single(kind);
            proof {
                assert(out@.push(d) =~= out@ + seq![d]);
                let rest = parse_from(s, (i + 1) as nat);
                assert(parse_from(s, i as nat) == prepend(seq![d], rest));
                match rest {
                    Ok(l) => assert(out@ + (seq![d] + l) =~= out@.push(d) + l),
                    Err(_) => {},
                }
            }
            out.push(d);
            i = i + 1;
        } else if '0' <= c && c <= '9' {
            let start = i;
            let mut j: usize = i + 1;
            let mut count: usize = (c as u32 - '0' as u32) as usize;
            let mut too_large = false;
            proof {
                let run = s.subrange(start as int, j as int);
                assert(run.drop_last() =~= Seq::<char>::empty());
                assert(dec_value(Seq::<char>::empty()) == 0);
                assert(dec_value(run) == digit_value(c));
            }
            while j < n && '0' <= chars[j] && chars[j] <= '9'
                invariant
                    n == s.len(),
                    s == input@,
                    chars@ == s,
                    start < j <= n,
                    parse_spec(s) == prepend(out@, run_from(s, start as nat, j as nat)),
                    too_large ==> dec_value(s.subrange(start as int, j as int)) > usize::MAX,
                    !too_large ==> count == dec_value(s.subrange(start as int, j as int)),
                decreases n - j,
            {
                let d = chars[j];
                let dv = (d as u32 - '0' as u32) as usize;
                proof {
                    assert(s.subrange(start as int, j + 1) =~= s.subrange(start as int, j as int).push(d));
                    lemma_dec_value_grows(s.subrange(start as int, j as int), d);
                }
                if !too_large {
                    if count <= (usize::MAX - dv) / 10 {
                        assert(count * 10 + dv <= usize::MAX) by (nonlinear_arith)
                            requires count <= (usize::MAX - dv) / 10, dv <= 9;
                        count = count * 10 + dv;
                    } else {
                        assert(count * 10 + dv > usize::MAX) by (nonlinear_arith)
                            requires count > (usize::MAX - dv) / 10, dv <= 9;
                        too_large = true;
                    }
                }
                j = j + 1;
            }
            if j >= n {
                return Err(SyntaxError::DigitsWithoutTag { position: start });
            }
            let t = chars[j];
            if t == ' ' || t == '\t' || t == '\n' || t == '\r' {
                return Err(SyntaxError::DigitsWithoutTag { position: start });
            }
            match ParseChar::from_tag(t) {
                None => {
                    return Err(SyntaxError::UnrecognizedCharacter { ch: t, position: j });
                },
                Some(kind) => {
                    if too_large {
                        return Err(SyntaxError::CountTooLarge { position: start });
                    }
                    if count == 0 {
                        return Err(SyntaxError::ZeroCount { position: start });
                    }
                    let d = MultipleParseChar::many(kind, count);
                    proof {
                        let rest = parse_from(s, (j + 1) as nat);
                        assert(run_from(s, start as nat, j as nat) == prepend(seq![d], rest));
                        match rest {
                            Ok(l) => assert(out@ + (seq![d] + l) =~= out@.push(d) + l),
                            Err(_) => {},
                        }
                    }
                    out.push(d);
                    i = j + 1;
                },
            }
        } else {
            return Err(SyntaxError::UnrecognizedCharacter { ch: c, position: i });
        }
    }
    proof {
        assert(out@ + Seq::<MultipleParseChar>::empty() =~= out@);
    }
    Ok(out)
}

/// The text of one descriptor: its tag, preceded by its count when that is above one.
pub open spec fn piece(d: MultipleParseChar) -> Seq<char> {
    if d.count > 1 {
        nat_text(d.count as nat).push(tag_of(d.kind))
    } else {
        seq![tag_of(d.kind)]
    }
}

/// The text of a descriptor list: the pieces of its descriptors, concatenated in order.
pub open spec fn render_spec(ds: Seq<MultipleParseChar>) -> Seq<char>
    decreases ds.len(),
{
    if ds.len() == 0 {
        Seq::empty()
    } else {
        render_spec(ds.drop_last()) + piece(ds.last())
    }
}

fn tag_str(k: ParseChar) -> (r: &'static str)
    ensures
        r@ == seq![tag_of(k)],
{
    proof {
        reveal_strlit("b");
        reveal_strlit("B");
        reveal_strlit("?");
        reveal_strlit("h");
        reveal_strlit("H");
        reveal_strlit("i");
        reveal_strlit("I");
        reveal_strlit("l");
        reveal_strlit("L");
    }
    match k {
        ParseChar::I8 => "b",
        ParseChar::U8 => "B",
        ParseChar::Bool => "?",
        ParseChar::I16 => "h",
        ParseChar::U16 => "H",
        ParseChar::I32 => "i",
        ParseChar::U32 => "I",
        ParseChar::I64 => "l",
        ParseChar::U64 => "L",
    }
}

/// Renders descriptors back to instruction text, `<count><tag>` for a run of more than one and
/// `<tag>` otherwise, with no separator.
pub fn render(instructions: &[MultipleParseChar]) -> (r: String)
    ensures
        r@ == render_spec(instructions@),
{
    let mut out = String::new();
    let mut i: usize = 0;
    assert(instructions@.take(0) =~= Seq::<MultipleParseChar>::empty());
    while i < instructions.len()
        invariant
            i <= instructions@.len(),
            out@ == render_spec(instructions@.take(i as int)),
        decreases instructions@.len() - i,
    {
        let d = instructions[i];
        let ghost before = out@;
        if d.count > 1 {
            push_decimal(&mut out, d.count as u64);
        }
        out.append(tag_str(d.kind));
        proof {
            let next = instructions@.take(i + 1);
            assert(next.drop_last() =~= instructions@.take(i as int));
            assert(out@ =~= before + piece(d));
        }
        i = i + 1;
    }
    assert(instructions@.take(i as int) =~= instructions@);
    out
}

proof fn lemma_nat_text_digits(n: nat)
    ensures
        nat_text(n).len() >= 1,
        forall|k: int| 0 <= k < nat_text(n).len() ==> is_digit(#[trigger] nat_text(n)[k]),
        dec_value(nat_text(n)) == n,
    decreases n,
{
    if n < 10 {
        let t = nat_text(n);
        assert(t.drop_last() =~= Seq::<char>::empty());
        assert(dec_value(Seq::<char>::empty()) == 0);
        assert(digit_value(digit_char(n, false)) == n);
    } else {
        lemma_nat_text_digits(n / 10);
        let front = nat_text(n / 10);
        let c = digit_char(n % 10, false);
        assert(digit_value(c) == n % 10);
        lemma_dec_value_grows(front, c);
    }
}

/// Inside a digit run, reading more digits leaves the outcome unchanged.
proof fn lemma_run_skips_digits(s: Seq<char>, start: nat, k: nat, e: nat)
    requires
        k <= e <= s.len(),
        forall|q: int| k <= q < e ==> is_digit(#[trigger] s[q]),
    ensures
        run_from(s, start, k) == run_from(s, start, e),
    decreases e - k,
{
    if k < e {
        lemma_run_skips_digits(s, start, k + 1, e);
    }
}

/// The text of one well-formed descriptor parses back to that descriptor, whatever follows it.
proof fn lemma_piece_parses(s: Seq<char>, p: nat, d: MultipleParseChar)
    requires
        d.wf(),
        p + piece(d).len() <= s.len(),
        s.subrange(p as int, (p + piece(d).len()) as int) == piece(d),
    ensures
        parse_from(s, p) == prepend(seq![d], parse_from(s, p + piece(d).len())),
{
    lemma_tag_bijection(d.kind, tag_of(d.kind));
    let tag = tag_of(d.kind);
    if d.count > 1 {
        let digits = nat_text(d.count as nat);
        let m = digits.len();
        lemma_nat_text_digits(d.count as nat);
        assert(piece(d).len() == m + 1);
        assert forall|q: int| p <= q < p + m implies is_digit(#[trigger] s[q]) by {
            assert(s[q] == s.subrange(p as int, (p + piece(d).len()) as int)[q - p]);
            assert(piece(d)[q - p] == digits[q - p]);
        }
        assert(s[(p + m) as int] == s.subrange(p as int, (p + piece(d).len()) as int)[m as int]);
        assert(s[(p + m) as int] == tag);
        assert(is_digit(s[p as int]));
        lemma_run_skips_digits(s, p, p + 1, p + m);
        assert(s.subrange(p as int, (p + m) as int) =~= digits);
        assert(run_from(s, p, p + m) == prepend(seq![d], parse_from(s, p + m + 1)));
    } else {
        assert(s[p as int] == s.subrange(p as int, (p + piece(d).len()) as int)[0]);
        assert(s[p as int] == tag);
    }
}

/// Parsing text that holds the rendering of `ds` at position `t.len()` yields `ds` and then
/// goes on after it.
proof fn lemma_render_parses_within(t: Seq<char>, ds: Seq<MultipleParseChar>, u: Seq<char>)
    requires
        all_wf(ds),
    ensures
        parse_from(t + render_spec(ds) + u, t.len()) == prepend(
            ds,
            parse_from(t + render_spec(ds) + u, t.len() + render_spec(ds).len()),
        ),
    decreases ds.len(),
{
    let s = t + render_spec(ds) + u;
    if ds.len() == 0 {
        match parse_from(s, t.len()) {
            Ok(l) => assert(Seq::<MultipleParseChar>::empty() + l =~= l),
            Err(_) => {},
        }
    } else {
        let front = ds.drop_last();
        let d = ds.last();
        assert(all_wf(front)) by {
            assert forall|k: int| 0 <= k < front.len() implies (#[trigger] front[k]).wf() by {
                assert(front[k] == ds[k]);
            }
        }
        assert(d.wf()) by {
            assert(d == ds[ds.len() - 1]);
        }
        let u2 = piece(d) + u;
        assert(s =~= t + render_spec(front) + u2);
        lemma_render_parses_within(t, front, u2);
        let p = t.len() + render_spec(front).len();
        assert(s.subrange(p as int, (p + piece(d).len()) as int) =~= piece(d));
        lemma_piece_parses(s, p, d);
        assert(p + piece(d).len() == t.len() + render_spec(ds).len());
        match parse_from(s, t.len() + render_spec(ds).len()) {
            Ok(l) => assert(front + (seq![d] + l) =~= ds + l),
            Err(_) => {},
        }
    }
}

/// Rendering a list of well-formed descriptors and parsing the text gives the list back.
pub proof fn lemma_render_then_parse(ds: Seq<MultipleParseChar>)
    requires
        all_wf(ds),
    ensures
        parse_spec(render_spec(ds)) == Ok::<Seq<MultipleParseChar>, SyntaxError>(ds),
{
    let e = Seq::<char>::empty();
    lemma_render_parses_within(e, ds, e);
    assert(e + render_spec(ds) + e =~= render_spec(ds));
    assert(ds + Seq::<MultipleParseChar>::empty() =~= ds);
}

proof fn lemma_prepend_wf(prefix: Seq<MultipleParseChar>, r: Result<Seq<MultipleParseChar>, SyntaxError>)
    requires
        all_wf(prefix),
        r is Ok ==> all_wf(r->Ok_0),
    ensures
        prepend(prefix, r) is Ok ==> all_wf(prepend(prefix, r)->Ok_0),
{
    if let Ok(l) = r {
        let whole = prefix + l;
        assert forall|k: int| 0 <= k < whole.len() implies (#[trigger] whole[k]).wf() by {
            if k < prefix.len() {
                assert(whole[k] == prefix[k]);
            } else {
                assert(whole[k] == l[k - prefix.len()]);
            }
        }
    }
}

/// Every descriptor that parsing yields is well formed.
proof fn lemma_parse_from_wf(s: Seq<char>, i: nat)
    ensures
        parse_from(s, i) is Ok ==> all_wf(parse_from(s, i)->Ok_0),
    decreases 2 * (s.len() - i) + 1,
{
    if i < s.len() {
        let c = s[i as int];
        if is_space(c) {
            lemma_parse_from_wf(s, i + 1);
        } else if is_tag(c) {
            lemma_parse_from_wf(s, i + 1);
            lemma_prepend_wf(seq![MultipleParseChar { kind: kind_of_tag(c)->0, count: 1 }], parse_from(s, i + 1));
        } else if is_digit(c) {
            lemma_run_from_wf(s, i, i + 1);
        }
    }
}

proof fn lemma_run_from_wf(s: Seq<char>, start: nat, i: nat)
    ensures
        run_from(s, start, i) is Ok ==> all_wf(run_from(s, start, i)->Ok_0),
    decreases 2 * (s.len() - i) + 2,
{
    if i < s.len() {
        let c = s[i as int];
        if is_digit(c) {
            lemma_run_from_wf(s, start, i + 1);
        } else if !is_space(c) && is_tag(c) {
            let n = dec_value(s.subrange(start as int, i as int));
            if n != 0 && n <= usize::MAX {
                lemma_parse_from_wf(s, i + 1);
                lemma_prepend_wf(
                    seq![MultipleParseChar { kind: kind_of_tag(c)->0, count: n as usize }],
                    parse_from(s, i + 1),
                );
            }
        }
    }
}

/// Rendering the descriptors of valid text and parsing the rendering gives the same
/// descriptors as parsing the text itself.
pub proof fn lemma_round_trip(s: Seq<char>)
    requires
        parse_spec(s) is Ok,
    ensures
        parse_spec(render_spec(parse_spec(s)->Ok_0)) == parse_spec(s),
{
    lemma_parse_from_wf(s, 0);
    lemma_render_then_parse(parse_spec(s)->Ok_0);
}

} // verus!
