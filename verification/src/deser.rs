use vstd::prelude::*;
use crate::error::ErrorType;
use crate::number::{parse_int, token_ok, token_value, Number};
use crate::object::ObjectMap;
use crate::small_string::{scan_small, has_small_close, small_close_pos, SMALL_STR_LEN, QUOTE,
    BACKSLASH};
use crate::value::{Value, SpecVal, value_wf, models, models_seq, models_entries,
    lemma_models_seq_push, lemma_models_entries_push};

verus! {

/// Deepest container nesting the builder accepts before failing with
/// `NestingTooDeep` instead of risking stack exhaustion.
pub const MAX_DEPTH: usize = 1024;

/// A byte that can start a JSON value under the dispatch.
pub open spec fn starts_value(b: u8) -> bool {
    ||| b == QUOTE
    ||| b == 45
    ||| 48 <= b <= 57
    ||| b == 110
    ||| b == 116
    ||| b == 102
    ||| b == 91
    ||| b == 123
}

/// What a backslash escape denotes, for the escapes this core
/// resolves itself; unicode escapes are left to the external parser
/// and are refused here.
pub open spec fn escape_map(b: u8) -> Option<u8> {
    if b == 34 {
        Some(34u8)
    } else if b == 92 {
        Some(92u8)
    } else if b == 47 {
        Some(47u8)
    } else if b == 110 {
        Some(10u8)
    } else if b == 116 {
        Some(9u8)
    } else if b == 114 {
        Some(13u8)
    } else if b == 98 {
        Some(8u8)
    } else if b == 102 {
        Some(12u8)
    } else {
        None
    }
}

/// The bytes a quoted content region denotes once escapes are
/// resolved, or the error the first bad escape raises.
pub open spec fn unescape(c: Seq<u8>) -> Result<Seq<u8>, ErrorType>
    decreases c.len(),
{
    if c.len() == 0 {
        Ok(Seq::empty())
    } else if c[0] == BACKSLASH {
        if c.len() == 1 {
            Err(ErrorType::InvalidEscape)
        } else {
            match escape_map(c[1]) {
                Some(b) => match unescape(c.skip(2)) {
                    Ok(rest) => Ok(seq![b] + rest),
                    Err(e) => Err(e),
                },
                None => Err(ErrorType::InvalidEscape),
            }
        }
    } else {
        match unescape(c.skip(1)) {
            Ok(rest) => Ok(seq![c[0]] + rest),
            Err(e) => Err(e),
        }
    }
}

fn escape_byte(b: u8) -> (r: Option<u8>)
    ensures
        r == escape_map(b),
{
    if b == 34 {
        Some(34u8)
    } else if b == 92 {
        Some(92u8)
    } else if b == 47 {
        Some(47u8)
    } else if b == 110 {
        Some(10u8)
    } else if b == 116 {
        Some(9u8)
    } else if b == 114 {
        Some(13u8)
    } else if b == 98 {
        Some(8u8)
    } else if b == 102 {
        Some(12u8)
    } else {
        None
    }
}

/// Resolves the escapes of a quoted content region into owned bytes.
fn unescape_content(c: &[u8]) -> (r: Result<Vec<u8>, ErrorType>)
    ensures
        match r {
            Ok(v) => unescape(c@) matches Ok(b) && v@ == b,
            Err(e) => unescape(c@) == Err::<Seq<u8>, ErrorType>(e),
        },
{
    let n = c.len();
    let mut out: Vec<u8> = Vec::new();
    let mut j: usize = 0;
    proof {
        assert(c@.skip(0) =~= c@);
    }
    while j < n
        invariant
            n == c@.len(),
            j <= n,
            match unescape(c@.skip(j as int)) {
                Ok(rest) => unescape(c@) == Ok::<Seq<u8>, ErrorType>(out@ + rest),
                Err(e) => unescape(c@) == Err::<Seq<u8>, ErrorType>(e),
            },
        decreases n - j,
    {
        let ghost tail = c@.skip(j as int);
        let b = *vstd::slice::slice_index_get(c, j);
        proof {
            assert(tail[0] == c@[j as int]);
        }
        if b == BACKSLASH {
            if j + 1 >= n {
                proof {
                    assert(tail.len() == 1);
                }
                return Err(ErrorType::InvalidEscape);
            }
            let e = *vstd::slice::slice_index_get(c, j + 1);
            proof {
                assert(tail[1] == c@[j + 1]);
            }
            match escape_byte(e) {
                Some(x) => {
                    let ghost out_pre = out@;
                    out.push(x);
                    proof {
                        assert(tail.skip(2) =~= c@.skip(j + 2));
                        if unescape(c@.skip(j + 2)) is Ok {
                            let rest = unescape(c@.skip(j + 2))->Ok_0;
                            assert(unescape(tail) == Ok::<Seq<u8>, ErrorType>(seq![x] + rest));
                            assert(out@ + rest =~= out_pre + (seq![x] + rest));
                        }
                    }
                    j += 2;
                },
                None => {
                    return Err(ErrorType::InvalidEscape);
                },
            }
        } else {
            let ghost out_pre = out@;
            out.push(b);
            proof {
                assert(tail.skip(1) =~= c@.skip(j + 1));
                if unescape(c@.skip(j + 1)) is Ok {
                    let rest = unescape(c@.skip(j + 1))->Ok_0;
                    assert(unescape(tail) == Ok::<Seq<u8>, ErrorType>(seq![b] + rest));
                    assert(out@ + rest =~= out_pre + (seq![b] + rest));
                }
            }
            j += 1;
        }
    }
    proof {
        assert(c@.skip(n as int) =~= Seq::<u8>::empty());
        assert(out@ + Seq::<u8>::empty() =~= out@);
    }
    Ok(out)
}

/// An insignificant whitespace byte.
pub open spec fn is_ws(b: u8) -> bool {
    b == 32 || b == 9 || b == 10 || b == 13
}

/// A byte that continues a numeric token in the pre-scan.
pub open spec fn is_number_byte(b: u8) -> bool {
    (48 <= b <= 57) || b == 46 || b == 101 || b == 69 || b == 43 || b == 45
}

/// Position of the closing unescaped quote at or after `j`, skipping
/// two bytes at each backslash.
pub open spec fn spec_find_close(inp: Seq<u8>, j: int) -> Option<int>
    decreases inp.len() - j,
{
    if j >= inp.len() {
        None
    } else if inp[j] == BACKSLASH {
        if j + 1 < inp.len() {
            spec_find_close(inp, j + 2)
        } else {
            None
        }
    } else if inp[j] == QUOTE {
        Some(j)
    } else {
        spec_find_close(inp, j + 1)
    }
}

pub proof fn lemma_find_close_bounds(inp: Seq<u8>, j: int)
    ensures
        spec_find_close(inp, j) matches Some(jj) ==> j <= jj < inp.len(),
    decreases inp.len() - j,
{
    if j < inp.len() {
        if inp[j] == BACKSLASH {
            if j + 1 < inp.len() {
                lemma_find_close_bounds(inp, j + 2);
            }
        } else if inp[j] != QUOTE {
            lemma_find_close_bounds(inp, j + 1);
        }
    }
}

/// First position at or after `j` that does not continue a number.
pub open spec fn spec_number_end(inp: Seq<u8>, j: int) -> int
    decreases inp.len() - j,
{
    if j < inp.len() && is_number_byte(inp[j]) {
        spec_number_end(inp, j + 1)
    } else {
        j
    }
}

pub proof fn lemma_number_end_bounds(inp: Seq<u8>, j: int)
    ensures
        spec_number_end(inp, j) >= j,
        j <= inp.len() ==> spec_number_end(inp, j) <= inp.len(),
    decreases inp.len() - j,
{
    if j < inp.len() && is_number_byte(inp[j]) {
        lemma_number_end_bounds(inp, j + 1);
    }
}

/// Prepends one token (position, count) to a scan result.
pub open spec fn toks_cons(p: int, c: int, rest: Result<(Seq<usize>, Seq<usize>), ErrorType>) -> Result<
    (Seq<usize>, Seq<usize>),
    ErrorType,
> {
    match rest {
        Ok(tc) => Ok((seq![p as usize] + tc.0, seq![c as usize] + tc.1)),
        Err(e) => Err(e),
    }
}

/// The token positions and raw counts the pre-scan reads off the
/// bytes from position `i`: whitespace skipped, strings delimited by
/// their closing quote and counted by byte length, numbers by their
/// character class, literals checked letter for letter, every other
/// byte one token of its own.
pub open spec fn spec_scan(inp: Seq<u8>, i: int) -> Result<(Seq<usize>, Seq<usize>), ErrorType>
    decreases inp.len() - i,
    via spec_scan_decreases
{
    if i >= inp.len() {
        Ok((Seq::empty(), Seq::empty()))
    } else {
        let b = inp[i];
        if is_ws(b) {
            spec_scan(inp, i + 1)
        } else if b == QUOTE {
            match spec_find_close(inp, i + 1) {
                Some(j) => toks_cons(i, j - i + 1, spec_scan(inp, j + 1)),
                None => Err(ErrorType::UnterminatedString),
            }
        } else if b == 45 || (48 <= b <= 57) {
            toks_cons(i, 0, spec_scan(inp, spec_number_end(inp, i + 1)))
        } else if b == 110 {
            if i + 4 <= inp.len() && inp[i + 1] == 117 && inp[i + 2] == 108 && inp[i + 3] == 108 {
                toks_cons(i, 0, spec_scan(inp, i + 4))
            } else {
                Err(ErrorType::InvalidLiteral)
            }
        } else if b == 116 {
            if i + 4 <= inp.len() && inp[i + 1] == 114 && inp[i + 2] == 117 && inp[i + 3] == 101 {
                toks_cons(i, 0, spec_scan(inp, i + 4))
            } else {
                Err(ErrorType::InvalidLiteral)
            }
        } else if b == 102 {
            if i + 5 <= inp.len() && inp[i + 1] == 97 && inp[i + 2] == 108 && inp[i + 3] == 115
                && inp[i + 4] == 101 {
                toks_cons(i, 0, spec_scan(inp, i + 5))
            } else {
                Err(ErrorType::InvalidLiteral)
            }
        } else {
            toks_cons(i, 0, spec_scan(inp, i + 1))
        }
    }
}

#[via_fn]
proof fn spec_scan_decreases(inp: Seq<u8>, i: int) {
    lemma_find_close_bounds(inp, i + 1);
    lemma_number_end_bounds(inp, i + 1);
}

/// The second pass of the pre-scan: walking the tokens with a stack
/// of open brackets, counting commas per level, and writing each
/// container's element count at its opening token; unbalanced or
/// mismatched brackets are refused.
pub open spec fn spec_count_pass(
    inp: Seq<u8>,
    toks: Seq<usize>,
    cnts: Seq<usize>,
    t: int,
    stack: Seq<(usize, usize)>,
) -> Result<Seq<usize>, ErrorType>
    decreases toks.len() - t,
{
    if t >= toks.len() {
        if stack.len() == 0 {
            Ok(cnts)
        } else {
            Err(ErrorType::Syntax)
        }
    } else {
        let b = inp[toks[t] as int];
        if b == 91 || b == 123 {
            spec_count_pass(inp, toks, cnts, t + 1, stack.push((t as usize, 0)))
        } else if b == 93 || b == 125 {
            if stack.len() == 0 {
                Err(ErrorType::Syntax)
            } else {
                let fr = stack.last();
                let ob = inp[toks[fr.0 as int] as int];
                if (b == 93 && ob != 91) || (b == 125 && ob != 123) {
                    Err(ErrorType::Syntax)
                } else {
                    let cnt: int = if t == fr.0 + 1 {
                        0
                    } else {
                        fr.1 + 1
                    };
                    spec_count_pass(inp, toks, cnts.update(fr.0 as int, cnt as usize), t + 1,
                        stack.drop_last())
                }
            }
        } else if b == 44 {
            if stack.len() > 0 {
                let fr = stack.last();
                spec_count_pass(inp, toks, cnts, t + 1, stack.update(stack.len() - 1, (fr.0, (fr.1
                    + 1) as usize)))
            } else {
                spec_count_pass(inp, toks, cnts, t + 1, stack)
            }
        } else {
            spec_count_pass(inp, toks, cnts, t + 1, stack)
        }
    }
}

/// What the string token `t` denotes, over the raw cursor parts:
/// its unescaped content, or the error for a malformed token or a
/// bad escape.
pub open spec fn token_string(toks: Seq<usize>, cnts: Seq<usize>, inp: Seq<u8>, t: int) -> Result<
    Seq<u8>,
    ErrorType,
> {
    let p = toks[t] as int;
    let c = cnts[t] as int;
    if 2 <= c && p + c <= inp.len() && inp[p] == QUOTE && inp[p + c - 1] == QUOTE {
        unescape(inp.subrange(p + 1, p + c - 1))
    } else {
        Err(ErrorType::Syntax)
    }
}

/// The token index after one separator step of a stream of `n_toks`
/// tokens.
pub open spec fn skip_to(n_toks: int, i: int) -> int {
    if i < n_toks {
        i + 1
    } else {
        i
    }
}

/// The value the token stream denotes from token `i` with nesting
/// budget `d`, and the token index after it: the mathematical mirror
/// of the recursive-descent builder. The result is the builder's,
/// error for error, and the shape of the value for success.
pub open spec fn spec_parse_value(
    toks: Seq<usize>,
    cnts: Seq<usize>,
    inp: Seq<u8>,
    i: int,
    d: int,
) -> (Result<SpecVal, ErrorType>, int)
    decreases d, 1int, 0int,
{
    if i >= toks.len() {
        (Err(ErrorType::UnexpectedEnd), i)
    } else {
        let pos = toks[i] as int;
        let cnt = cnts[i] as int;
        let b = inp[pos];
        let j = i + 1;
        if b == QUOTE {
            let w = inp.skip(pos + 1);
            if cnt <= SMALL_STR_LEN + 2 && has_small_close(w) {
                (Ok(SpecVal::Str(w.take(small_close_pos(w)), true)), j)
            } else {
                match token_string(toks, cnts, inp, i) {
                    Ok(bb) => (Ok(SpecVal::Str(bb, false)), j),
                    Err(e) => (Err(e), j),
                }
            }
        } else if b == 45 || (48 <= b <= 57) {
            if token_ok(inp, pos, b == 45) {
                (Ok(SpecVal::Int(token_value(inp, pos, b == 45))), j)
            } else {
                (Err(ErrorType::InvalidNumber), j)
            }
        } else if b == 110 {
            (Ok(SpecVal::Null), j)
        } else if b == 116 {
            (Ok(SpecVal::Bool(true)), j)
        } else if b == 102 {
            (Ok(SpecVal::Bool(false)), j)
        } else if b == 91 {
            if cnt == 0 {
                (Ok(SpecVal::Arr(Seq::empty())), skip_to(toks.len() as int, j))
            } else if d <= 0 {
                (Err(ErrorType::NestingTooDeep), j)
            } else {
                let pr = spec_parse_elems(toks, cnts, inp, j, cnt, d);
                match pr.0 {
                    Ok(svs) => (Ok(SpecVal::Arr(svs)), pr.1),
                    Err(e) => (Err(e), pr.1),
                }
            }
        } else if b == 123 {
            if cnt == 0 {
                (Ok(SpecVal::Obj(Seq::empty())), skip_to(toks.len() as int, j))
            } else if d <= 0 {
                (Err(ErrorType::NestingTooDeep), j)
            } else {
                let pr = spec_parse_pairs(toks, cnts, inp, j, cnt, d);
                match pr.0 {
                    Ok(ps) => (Ok(SpecVal::Obj(ps)), pr.1),
                    Err(e) => (Err(e), pr.1),
                }
            }
        } else {
            (Err(ErrorType::UnexpectedCharacter), j)
        }
    }
}

/// The `n` array elements the stream denotes from token `i`: each
/// element in input order, with one separator step after each; the
/// first failing element's error ends the walk at once.
pub open spec fn spec_parse_elems(
    toks: Seq<usize>,
    cnts: Seq<usize>,
    inp: Seq<u8>,
    i: int,
    n: int,
    d: int,
) -> (Result<Seq<SpecVal>, ErrorType>, int)
    decreases d, 0int, n,
{
    if n <= 0 {
        (Ok(Seq::empty()), i)
    } else if d <= 0 {
        (Err(ErrorType::NestingTooDeep), i)
    } else {
        let pv = spec_parse_value(toks, cnts, inp, i, d - 1);
        match pv.0 {
            Ok(sv) => {
                let i2 = skip_to(toks.len() as int, pv.1);
                let pr = spec_parse_elems(toks, cnts, inp, i2, n - 1, d);
                match pr.0 {
                    Ok(rest) => (Ok(seq![sv] + rest), pr.1),
                    Err(e) => (Err(e), pr.1),
                }
            },
            Err(e) => (Err(e), pv.1),
        }
    }
}

/// The `n` object pairs the stream denotes from token `i`: per pair
/// one separator step, the key token, one step past the colon, the
/// value, and one trailing step; the first failure ends the walk.
pub open spec fn spec_parse_pairs(
    toks: Seq<usize>,
    cnts: Seq<usize>,
    inp: Seq<u8>,
    i: int,
    n: int,
    d: int,
) -> (Result<Seq<(Seq<u8>, SpecVal)>, ErrorType>, int)
    decreases d, 0int, n,
{
    if n <= 0 {
        (Ok(Seq::empty()), i)
    } else if d <= 0 {
        (Err(ErrorType::NestingTooDeep), i)
    } else if i >= toks.len() {
        (Err(ErrorType::UnexpectedEnd), i)
    } else {
        let i1 = i + 1;
        match token_string(toks, cnts, inp, i) {
            Err(e) => (Err(e), i1),
            Ok(kb) => {
                let i2 = skip_to(toks.len() as int, i1);
                let pv = spec_parse_value(toks, cnts, inp, i2, d - 1);
                match pv.0 {
                    Err(e) => (Err(e), pv.1),
                    Ok(sv) => {
                        let i3 = skip_to(toks.len() as int, pv.1);
                        let pr = spec_parse_pairs(toks, cnts, inp, i3, n - 1, d);
                        match pr.0 {
                            Ok(rest) => (Ok(seq![(kb, sv)] + rest), pr.1),
                            Err(e) => (Err(e), pr.1),
                        }
                    },
                }
            },
        }
    }
}

/// Position of the closing unescaped quote at or after `from`.
fn find_close(input: &Vec<u8>, from: usize) -> (r: Option<usize>)
    requires
        from <= input@.len(),
    ensures
        r matches Some(j) ==> from <= j < input@.len(),
        (match r {
            Some(j) => spec_find_close(input@, from as int) == Some(j as int),
            None => spec_find_close(input@, from as int) is None,
        }),
{
    let n = input.len();
    let mut j = from;
    while j < n
        invariant
            n == input@.len(),
            from <= j,
            spec_find_close(input@, from as int) == spec_find_close(input@, j as int),
        decreases n - j,
    {
        let b = *vstd::std_specs::vec::vec_index(input, j);
        if b == BACKSLASH {
            if j + 1 < n {
                j += 2;
            } else {
                return None;
            }
        } else if b == QUOTE {
            return Some(j);
        } else {
            j += 1;
        }
    }
    None
}

/// First position after the numeric token that starts at `from`.
fn number_end(input: &Vec<u8>, from: usize) -> (r: usize)
    requires
        from < input@.len(),
    ensures
        from < r <= input@.len(),
        r == spec_number_end(input@, from + 1),
{
    let n = input.len();
    let mut j = from + 1;
    while j < n
        invariant
            n == input@.len(),
            from < j <= n,
            spec_number_end(input@, from + 1) == spec_number_end(input@, j as int),
        decreases n - j,
    {
        let b = *vstd::std_specs::vec::vec_index(input, j);
        if (48 <= b && b <= 57) || b == 46 || b == 101 || b == 69 || b == 43 || b == 45 {
            j += 1;
        } else {
            return j;
        }
    }
    j
}

/// One accumulation step of the pre-scan proof: pushing the token
/// the spec conses keeps the partial token lists aligned with the
/// spec scan of the whole buffer.
proof fn scan_step(
    s: Seq<u8>,
    i: int,
    p: int,
    c: int,
    next: int,
    toks_pre: Seq<usize>,
    cnts_pre: Seq<usize>,
)
    requires
        spec_scan(s, i) == toks_cons(p, c, spec_scan(s, next)),
        (match spec_scan(s, i) {
            Ok(tc) => spec_scan(s, 0) == Ok::<(Seq<usize>, Seq<usize>), ErrorType>(
                ((toks_pre + tc.0, cnts_pre + tc.1)),
            ),
            Err(e) => spec_scan(s, 0) == Err::<(Seq<usize>, Seq<usize>), ErrorType>(e),
        }),
    ensures
        (match spec_scan(s, next) {
            Ok(tc) => spec_scan(s, 0) == Ok::<(Seq<usize>, Seq<usize>), ErrorType>(
                ((toks_pre.push(p as usize) + tc.0, cnts_pre.push(c as usize) + tc.1)),
            ),
            Err(e) => spec_scan(s, 0) == Err::<(Seq<usize>, Seq<usize>), ErrorType>(e),
        }),
{
    match spec_scan(s, next) {
        Ok(tc) => {
            assert(toks_pre + (seq![p as usize] + tc.0) =~= toks_pre.push(p as usize) + tc.0);
            assert(cnts_pre + (seq![c as usize] + tc.1) =~= cnts_pre.push(c as usize) + tc.1);
        },
        Err(_) => {
        },
    }
}

/// Parses a byte buffer into one value tree: the structural pre-scan
/// classifies the bytes, then the recursive-descent builder runs at
/// the first token. The buffer is only read; string content is
/// copied out, inline or owned.
pub fn to_value(s: &[u8]) -> (r: Result<Value, ErrorType>)
    ensures
        r matches Ok(v) ==> value_wf(v),
        s@.len() == 0 ==> r == Err::<Value, ErrorType>(ErrorType::UnexpectedEnd),
        ({
            match spec_scan(s@, 0) {
                Err(e) => r == Err::<Value, ErrorType>(e),
                Ok(tc) => match spec_count_pass(s@, tc.0, tc.1, 0, Seq::empty()) {
                    Err(e) => r == Err::<Value, ErrorType>(e),
                    Ok(cs) => ({
                        let pr = spec_parse_value(tc.0, cs, s@, 0, MAX_DEPTH as int);
                        match r {
                            Ok(v) => pr.0 matches Ok(sv) && models(v, sv) && pr.1 == tc.0.len(),
                            Err(e) => pr.0 == Err::<SpecVal, ErrorType>(e) || (pr.0 is Ok && pr.1
                                < tc.0.len() && e == ErrorType::Syntax),
                        }
                    }),
                },
            }
        }),
{
    match Deserializer::from_slice(s) {
        Ok(mut d) => {
            let rv = d.parse_value_borrowed_root();
            if rv.is_ok() && d.idx < d.structurals.len() {
                return Err(ErrorType::Syntax);
            }
            rv
        },
        Err(e) => Err(e),
    }
}

/// Cursor over a byte buffer that a structural pre-scan has already
/// classified: the token start positions, a per-token count (the
/// element count of a container, the byte length of a string token),
/// and the index of the next token to consume.
pub struct Deserializer {
    input: Vec<u8>,
    structurals: Vec<usize>,
    counts: Vec<usize>,
    idx: usize,
}

impl Deserializer {
    /// The bytes the cursor walks.
    pub closed spec fn spec_input(self) -> Seq<u8> {
        self.input@
    }

    /// The token start positions the pre-scan recorded.
    pub closed spec fn spec_toks(self) -> Seq<usize> {
        self.structurals@
    }

    /// The per-token counts the pre-scan recorded.
    pub closed spec fn spec_counts(self) -> Seq<usize> {
        self.counts@
    }

    /// The index of the next token to consume.
    pub closed spec fn spec_idx(self) -> int {
        self.idx as int
    }

    /// Token positions point into the buffer, every token has a
    /// count, and the cursor has not run past the end.
    pub open spec fn wf(self) -> bool {
        &&& self.spec_toks().len() == self.spec_counts().len()
        &&& forall|i: int|
            0 <= i < self.spec_toks().len() ==> #[trigger] self.spec_toks()[i]
                < self.spec_input().len()
        &&& self.spec_idx() <= self.spec_toks().len()
    }

    /// Whether a token remains.
    pub open spec fn has_next(self) -> bool {
        self.spec_idx() < self.spec_toks().len()
    }

    /// Start position of the next token.
    pub open spec fn cur_pos(self) -> int {
        self.spec_toks()[self.spec_idx()] as int
    }

    /// Count recorded for the next token.
    pub open spec fn cur_count(self) -> int {
        self.spec_counts()[self.spec_idx()] as int
    }

    /// The dispatch byte: the first byte of the next token.
    pub open spec fn cur_byte(self) -> u8 {
        self.spec_input()[self.cur_pos()]
    }

    /// The cursor state is unchanged but for the token index.
    pub open spec fn same_stream(self, other: Deserializer) -> bool {
        &&& other.spec_input() == self.spec_input()
        &&& other.spec_toks() == self.spec_toks()
        &&& other.spec_counts() == self.spec_counts()
    }

    /// What the string token `t` denotes: its unescaped content, or
    /// the error for a malformed token or a bad escape.
    pub open spec fn string_token_spec(self, t: int) -> Result<Seq<u8>, ErrorType> {
        token_string(self.spec_toks(), self.spec_counts(), self.spec_input(), t)
    }

    /// Builds a cursor directly from its parts, so the builder can be
    /// driven by any count oracle; refuses parts whose positions fall
    /// outside the buffer or whose counts are not one per token.
    pub fn from_parts(input: Vec<u8>, structurals: Vec<usize>, counts: Vec<usize>) -> (r: Result<
        Deserializer,
        ErrorType,
    >)
        ensures
            r matches Ok(d) ==> d.wf() && d.spec_input() == input@ && d.spec_toks() == structurals@
                && d.spec_counts() == counts@ && d.spec_idx() == 0,
            (structurals@.len() == counts@.len() && (forall|i: int|
                0 <= i < structurals@.len() ==> #[trigger] structurals@[i] < input@.len()))
                ==> r is Ok,
    {
        if structurals.len() != counts.len() {
            return Err(ErrorType::Syntax);
        }
        let n = input.len();
        let m = structurals.len();
        let mut i: usize = 0;
        while i < m
            invariant
                m == structurals@.len(),
                n == input@.len(),
                i <= m,
                forall|k: int| 0 <= k < i ==> #[trigger] structurals@[k] < n,
            decreases m - i,
        {
            if *vstd::std_specs::vec::vec_index(&structurals, i) >= n {
                return Err(ErrorType::Syntax);
            }
            i += 1;
        }
        Ok(Deserializer { input, structurals, counts, idx: 0 })
    }

    /// The structural pre-scan: records every token start position,
    /// the byte length of each string token and, in a second pass
    /// over the brackets, the element count of each container.
    pub fn from_slice(s: &[u8]) -> (r: Result<Deserializer, ErrorType>)
        ensures
            r matches Ok(d) ==> d.wf() && d.spec_input() == s@ && d.spec_idx() == 0,
            s@.len() == 0 ==> (r matches Ok(d) && d.spec_toks().len() == 0),
            ({
                match spec_scan(s@, 0) {
                    Err(e) => r == Err::<Deserializer, ErrorType>(e),
                    Ok(tc) => match spec_count_pass(s@, tc.0, tc.1, 0, Seq::empty()) {
                        Err(e) => r == Err::<Deserializer, ErrorType>(e),
                        Ok(cs) => r matches Ok(d) && d.spec_toks() == tc.0 && d.spec_counts()
                            == cs,
                    },
                }
            }),
    {
        let input = vstd::slice::slice_to_vec(s);
        let n = input.len();
        let mut structurals: Vec<usize> = Vec::new();
        let mut counts: Vec<usize> = Vec::new();
        let mut i: usize = 0;
        while i < n
            invariant
                n == input@.len(),
                n == s@.len(),
                input@ == s@,
                n == 0 ==> structurals@.len() == 0,
                structurals@.len() == counts@.len(),
                forall|k: int|
                    0 <= k < structurals@.len() ==> #[trigger] structurals@[k] < n,
                ({
                    match spec_scan(s@, i as int) {
                        Ok(tc) => spec_scan(s@, 0) == Ok::<(Seq<usize>, Seq<usize>), ErrorType>(
                            ((structurals@ + tc.0, counts@ + tc.1)),
                        ),
                        Err(e) => spec_scan(s@, 0) == Err::<(Seq<usize>, Seq<usize>), ErrorType>(
                            e,
                        ),
                    }
                }),
            decreases n - i,
        {
            let ghost i_pre = i as int;
            let ghost toks_pre = structurals@;
            let ghost cnts_pre = counts@;
            let b = *vstd::std_specs::vec::vec_index(&input, i);
            if b == 32 || b == 9 || b == 10 || b == 13 {
                i += 1;
            } else if b == QUOTE {
                match find_close(&input, i + 1) {
                    Some(j) => {
                        structurals.push(i);
                        counts.push(j - i + 1);
                        proof {
                            scan_step(s@, i_pre, i_pre, (j - i_pre + 1) as int, j + 1, toks_pre,
                                cnts_pre);
                        }
                        i = j + 1;
                    },
                    None => {
                        proof {
                            assert(spec_scan(s@, i_pre) == Err::<
                                (Seq<usize>, Seq<usize>),
                                ErrorType,
                            >(ErrorType::UnterminatedString));
                        }
                        return Err(ErrorType::UnterminatedString);
                    },
                }
            } else if b == 45 || (48 <= b && b <= 57) {
                structurals.push(i);
                counts.push(0);
                let ni = number_end(&input, i);
                proof {
                    scan_step(s@, i_pre, i_pre, 0, ni as int, toks_pre, cnts_pre);
                }
                i = ni;
            } else if b == 110 {
                if n - i < 4 || *vstd::std_specs::vec::vec_index(&input, i + 1) != 117
                    || *vstd::std_specs::vec::vec_index(&input, i + 2) != 108
                    || *vstd::std_specs::vec::vec_index(&input, i + 3) != 108 {
                    proof {
                        assert(spec_scan(s@, i_pre) == Err::<(Seq<usize>, Seq<usize>), ErrorType>(
                            ErrorType::InvalidLiteral,
                        ));
                    }
                    return Err(ErrorType::InvalidLiteral);
                }
                structurals.push(i);
                counts.push(0);
                proof {
                    scan_step(s@, i_pre, i_pre, 0, i_pre + 4, toks_pre, cnts_pre);
                }
                i += 4;
            } else if b == 116 {
                if n - i < 4 || *vstd::std_specs::vec::vec_index(&input, i + 1) != 114
                    || *vstd::std_specs::vec::vec_index(&input, i + 2) != 117
                    || *vstd::std_specs::vec::vec_index(&input, i + 3) != 101 {
                    proof {
                        assert(spec_scan(s@, i_pre) == Err::<(Seq<usize>, Seq<usize>), ErrorType>(
                            ErrorType::InvalidLiteral,
                        ));
                    }
                    return Err(ErrorType::InvalidLiteral);
                }
                structurals.push(i);
                counts.push(0);
                proof {
                    scan_step(s@, i_pre, i_pre, 0, i_pre + 4, toks_pre, cnts_pre);
                }
                i += 4;
            } else if b == 102 {
                if n - i < 5 || *vstd::std_specs::vec::vec_index(&input, i + 1) != 97
                    || *vstd::std_specs::vec::vec_index(&input, i + 2) != 108
                    || *vstd::std_specs::vec::vec_index(&input, i + 3) != 115
                    || *vstd::std_specs::vec::vec_index(&input, i + 4) != 101 {
                    proof {
                        assert(spec_scan(s@, i_pre) == Err::<(Seq<usize>, Seq<usize>), ErrorType>(
                            ErrorType::InvalidLiteral,
                        ));
                    }
                    return Err(ErrorType::InvalidLiteral);
                }
                structurals.push(i);
                counts.push(0);
                proof {
                    scan_step(s@, i_pre, i_pre, 0, i_pre + 5, toks_pre, cnts_pre);
                }
                i += 5;
            } else {
                structurals.push(i);
                counts.push(0);
                proof {
                    scan_step(s@, i_pre, i_pre, 0, i_pre + 1, toks_pre, cnts_pre);
                }
                i += 1;
            }
        }
        proof {
            assert(spec_scan(s@, n as int) == Ok::<(Seq<usize>, Seq<usize>), ErrorType>((
                Seq::empty(),
                Seq::empty(),
            )));
            assert(structurals@ + Seq::<usize>::empty() =~= structurals@);
            assert(counts@ + Seq::<usize>::empty() =~= counts@);
        }
        let m = structurals.len();
        let ghost toks0 = structurals@;
        let ghost cnts0 = counts@;
        let mut stack: Vec<(usize, usize)> = Vec::new();
        let mut t: usize = 0;
        while t < m
            invariant
                n == input@.len(),
                n == s@.len(),
                input@ == s@,
                n == 0 ==> m == 0,
                n == 0 ==> stack@.len() == 0,
                m == structurals@.len(),
                structurals@ == toks0,
                structurals@.len() == counts@.len(),
                forall|k: int|
                    0 <= k < structurals@.len() ==> #[trigger] structurals@[k] < n,
                t <= m,
                forall|f: int|
                    0 <= f < stack@.len() ==> ((#[trigger] stack@[f]).0 < m && stack@[f].1 <= t),
                spec_scan(s@, 0) == Ok::<(Seq<usize>, Seq<usize>), ErrorType>(((toks0, cnts0))),
                spec_count_pass(s@, toks0, cnts0, 0, Seq::empty()) == spec_count_pass(s@, toks0,
                    counts@, t as int, stack@),
            decreases m - t,
        {
            let ghost t_pre = t as int;
            let ghost stack_pre = stack@;
            let ghost cnts_pre = counts@;
            let p = *vstd::std_specs::vec::vec_index(&structurals, t);
            let b = *vstd::std_specs::vec::vec_index(&input, p);
            if b == 91 || b == 123 {
                stack.push((t, 0));
                proof {
                    assert(spec_count_pass(s@, toks0, cnts_pre, t_pre, stack_pre)
                        == spec_count_pass(s@, toks0, counts@, t_pre + 1, stack@));
                }
            } else if b == 93 || b == 125 {
                if stack.len() == 0 {
                    proof {
                        assert(spec_count_pass(s@, toks0, cnts_pre, t_pre, stack_pre) == Err::<
                            Seq<usize>,
                            ErrorType,
                        >(ErrorType::Syntax));
                    }
                    return Err(ErrorType::Syntax);
                }
                let top = stack.len() - 1;
                let fr = *vstd::std_specs::vec::vec_index(&stack, top);
                let _ = stack.pop();
                let op = *vstd::std_specs::vec::vec_index(&structurals, fr.0);
                let ob = *vstd::std_specs::vec::vec_index(&input, op);
                if (b == 93 && ob != 91) || (b == 125 && ob != 123) {
                    proof {
                        assert(stack_pre.last() == fr);
                        assert(spec_count_pass(s@, toks0, cnts_pre, t_pre, stack_pre) == Err::<
                            Seq<usize>,
                            ErrorType,
                        >(ErrorType::Syntax));
                    }
                    return Err(ErrorType::Syntax);
                }
                let cnt: usize = if t == fr.0 + 1 {
                    0
                } else {
                    fr.1 + 1
                };
                counts.set(fr.0, cnt);
                proof {
                    assert(stack_pre.last() == fr);
                    assert(stack@ == stack_pre.drop_last());
                    assert(counts@ == cnts_pre.update(fr.0 as int, cnt));
                    assert(spec_count_pass(s@, toks0, cnts_pre, t_pre, stack_pre)
                        == spec_count_pass(s@, toks0, counts@, t_pre + 1, stack@));
                }
            } else if b == 44 {
                if stack.len() > 0 {
                    let top = stack.len() - 1;
                    let fr = *vstd::std_specs::vec::vec_index(&stack, top);
                    stack.set(top, (fr.0, fr.1 + 1));
                    proof {
                        assert(stack_pre.last() == fr);
                        assert(stack@ == stack_pre.update(stack_pre.len() - 1, (fr.0, (fr.1
                            + 1) as usize)));
                        assert(spec_count_pass(s@, toks0, cnts_pre, t_pre, stack_pre)
                            == spec_count_pass(s@, toks0, counts@, t_pre + 1, stack@));
                    }
                } else {
                    proof {
                        assert(spec_count_pass(s@, toks0, cnts_pre, t_pre, stack_pre)
                            == spec_count_pass(s@, toks0, counts@, t_pre + 1, stack@));
                    }
                }
            } else {
                proof {
                    assert(spec_count_pass(s@, toks0, cnts_pre, t_pre, stack_pre)
                        == spec_count_pass(s@, toks0, counts@, t_pre + 1, stack@));
                }
            }
            t += 1;
        }
        if stack.len() != 0 {
            proof {
                assert(spec_count_pass(s@, toks0, counts@, m as int, stack@) == Err::<
                    Seq<usize>,
                    ErrorType,
                >(ErrorType::Syntax));
            }
            return Err(ErrorType::Syntax);
        }
        proof {
            assert(spec_count_pass(s@, toks0, counts@, m as int, stack@) == Ok::<
                Seq<usize>,
                ErrorType,
            >(counts@));
        }
        Ok(Deserializer { input, structurals, counts, idx: 0 })
    }

    /// Consumes one structural token, as the cursor's separator step.
    fn skip(&mut self)
        requires
            old(self).wf(),
        ensures
            final(self).wf(),
            old(self).same_stream(*final(self)),
            final(self).spec_idx() == if old(self).has_next() {
                old(self).spec_idx() + 1
            } else {
                old(self).spec_idx()
            },
    {
        if self.idx < self.structurals.len() {
            self.idx = self.idx + 1;
        }
    }

    /// Reads and unescapes the string token `t`.
    fn string_token_content(&self, t: usize) -> (r: Result<Vec<u8>, ErrorType>)
        requires
            self.wf(),
            t < self.spec_toks().len(),
        ensures
            match r {
                Ok(v) => self.string_token_spec(t as int) matches Ok(b) && v@ == b,
                Err(e) => self.string_token_spec(t as int) == Err::<Seq<u8>, ErrorType>(e),
            },
    {
        let p = *vstd::std_specs::vec::vec_index(&self.structurals, t);
        let c = *vstd::std_specs::vec::vec_index(&self.counts, t);
        let n = self.input.len();
        if c < 2 || c > n - p {
            return Err(ErrorType::Syntax);
        }
        let first = *vstd::std_specs::vec::vec_index(&self.input, p);
        let last = *vstd::std_specs::vec::vec_index(&self.input, p + c - 1);
        if first != QUOTE || last != QUOTE {
            return Err(ErrorType::Syntax);
        }
        let content = vstd::slice::slice_subrange(self.input.as_slice(), p + 1, p + c - 1);
        unescape_content(content)
    }

    /// The root entry point of the recursive-descent builder: builds
    /// one value from the cursor with a fresh nesting budget.
    pub fn parse_value_borrowed_root(&mut self) -> (r: Result<Value, ErrorType>)
        requires
            old(self).wf(),
        ensures
            final(self).wf(),
            old(self).same_stream(*final(self)),
            final(self).spec_idx() >= old(self).spec_idx(),
            r matches Ok(v) ==> value_wf(v),
            parse_dispatch_post(*old(self), r),
            ({
                let pr = spec_parse_value(old(self).spec_toks(), old(self).spec_counts(),
                    old(self).spec_input(), old(self).spec_idx(), MAX_DEPTH as int);
                &&& final(self).spec_idx() == pr.1
                &&& (match r {
                    Ok(v) => pr.0 matches Ok(sv) && models(v, sv),
                    Err(e) => pr.0 == Err::<SpecVal, ErrorType>(e),
                })
            }),
    {
        self.parse_value_borrowed(MAX_DEPTH)
    }

    /// Builds one value from the cursor: dispatches on the first byte
    /// of the next token, delegating to the leaf parsers and to the
    /// container builders.
    fn parse_value_borrowed(&mut self, depth: usize) -> (r: Result<Value, ErrorType>)
        requires
            old(self).wf(),
        ensures
            final(self).wf(),
            old(self).same_stream(*final(self)),
            final(self).spec_idx() >= old(self).spec_idx(),
            r matches Ok(v) ==> value_wf(v),
            parse_dispatch_post(*old(self), r),
            ({
                let pr = spec_parse_value(old(self).spec_toks(), old(self).spec_counts(),
                    old(self).spec_input(), old(self).spec_idx(), depth as int);
                &&& final(self).spec_idx() == pr.1
                &&& (match r {
                    Ok(v) => pr.0 matches Ok(sv) && models(v, sv),
                    Err(e) => pr.0 == Err::<SpecVal, ErrorType>(e),
                })
            }),
        decreases depth, 1int,
    {
        if self.idx >= self.structurals.len() {
            return Err(ErrorType::UnexpectedEnd);
        }
        let t = self.idx;
        let pos = *vstd::std_specs::vec::vec_index(&self.structurals, t);
        let count = *vstd::std_specs::vec::vec_index(&self.counts, t);
        let b = *vstd::std_specs::vec::vec_index(&self.input, pos);
        self.idx = t + 1;
        let ghost gt = old(self).spec_toks();
        let ghost gc = old(self).spec_counts();
        let ghost gi = old(self).spec_input();
        let ghost dd = depth as int;
        let ghost pr = spec_parse_value(gt, gc, gi, t as int, dd);
        let ghost gw = gi.skip(pos + 1);
        if b == QUOTE {
            if count <= SMALL_STR_LEN + 2 {
                let n = self.input.len();
                let w = vstd::slice::slice_subrange(self.input.as_slice(), pos + 1, n);
                proof {
                    assert(w@ =~= old(self).spec_input().skip(old(self).cur_pos() + 1));
                }
                match scan_small(w) {
                    Some(ss) => {
                        proof {
                            assert(pr == (Ok::<SpecVal, ErrorType>(SpecVal::Str(gw.take(
                                small_close_pos(gw)), true)), t + 1));
                        }
                        return Ok(Value::SmallString(ss));
                    },
                    None => {
                    },
                }
            }
            proof {
                assert(!(count <= SMALL_STR_LEN + 2 && has_small_close(gw)));
            }
            match self.string_token_content(t) {
                Ok(bytes) => {
                    proof {
                        assert(token_string(gt, gc, gi, t as int) matches Ok(bb) && bytes@ == bb);
                        assert(pr == (Ok::<SpecVal, ErrorType>(SpecVal::Str(bytes@, false)), t
                            + 1));
                    }
                    Ok(Value::String(bytes))
                },
                Err(e) => {
                    proof {
                        assert(pr == (Err::<SpecVal, ErrorType>(e), t + 1));
                    }
                    Err(e)
                },
            }
        } else if b == 45 || (48 <= b && b <= 57) {
            let neg = b == 45;
            match parse_int(self.input.as_slice(), pos, neg) {
                Ok(nv) => {
                    proof {
                        assert(token_ok(gi, pos as int, neg));
                        assert(pr == (Ok::<SpecVal, ErrorType>(SpecVal::Int(token_value(gi,
                            pos as int, neg))), t + 1));
                        assert(models(Value::Number(nv), SpecVal::Int(token_value(gi, pos as int,
                            neg))));
                    }
                    Ok(Value::Number(nv))
                },
                Err(e) => {
                    proof {
                        assert(pr == (Err::<SpecVal, ErrorType>(ErrorType::InvalidNumber), t + 1));
                    }
                    Err(e)
                },
            }
        } else if b == 110 {
            proof {
                assert(pr == (Ok::<SpecVal, ErrorType>(SpecVal::Null), t + 1));
                assert(models(Value::Null, SpecVal::Null));
            }
            Ok(Value::Null)
        } else if b == 116 {
            proof {
                assert(pr == (Ok::<SpecVal, ErrorType>(SpecVal::Bool(true)), t + 1));
                assert(models(Value::Bool(true), SpecVal::Bool(true)));
            }
            Ok(Value::Bool(true))
        } else if b == 102 {
            proof {
                assert(pr == (Ok::<SpecVal, ErrorType>(SpecVal::Bool(false)), t + 1));
                assert(models(Value::Bool(false), SpecVal::Bool(false)));
            }
            Ok(Value::Bool(false))
        } else if b == 91 {
            let r = self.parse_array_borrowed(count, depth);
            proof {
                if count == 0 {
                    assert(pr == (Ok::<SpecVal, ErrorType>(SpecVal::Arr(Seq::empty())), skip_to(
                        gt.len() as int, t + 1)));
                    if r is Ok {
                        let v = r->Ok_0;
                        assert(v matches Value::Array(a) && a@ == Seq::<Value>::empty());
                        assert(models_seq(Seq::<Value>::empty(), Seq::<SpecVal>::empty()));
                    }
                } else if depth == 0 {
                    assert(pr == (Err::<SpecVal, ErrorType>(ErrorType::NestingTooDeep), t + 1));
                } else {
                    let pe = spec_parse_elems(gt, gc, gi, t + 1, count as int, dd);
                    assert(pr == (match pe.0 {
                        Ok(svs) => (Ok::<SpecVal, ErrorType>(SpecVal::Arr(svs)), pe.1),
                        Err(e) => (Err::<SpecVal, ErrorType>(e), pe.1),
                    }));
                }
            }
            r
        } else if b == 123 {
            let r = self.parse_map_borrowed(count, depth);
            proof {
                if count == 0 {
                    assert(pr == (Ok::<SpecVal, ErrorType>(SpecVal::Obj(Seq::empty())), skip_to(
                        gt.len() as int, t + 1)));
                    if r is Ok {
                        let v = r->Ok_0;
                        assert(v matches Value::Object(m) && m@
                            == Seq::<(Vec<u8>, Value)>::empty());
                        assert(models_entries(Seq::<(Vec<u8>, Value)>::empty(), Seq::<(
                            Seq<u8>,
                            SpecVal,
                        )>::empty()));
                    }
                } else if depth == 0 {
                    assert(pr == (Err::<SpecVal, ErrorType>(ErrorType::NestingTooDeep), t + 1));
                } else {
                    let pe = spec_parse_pairs(gt, gc, gi, t + 1, count as int, dd);
                    assert(pr == (match pe.0 {
                        Ok(ps) => (Ok::<SpecVal, ErrorType>(SpecVal::Obj(ps)), pe.1),
                        Err(e) => (Err::<SpecVal, ErrorType>(e), pe.1),
                    }));
                }
            }
            r
        } else {
            proof {
                assert(pr == (Err::<SpecVal, ErrorType>(ErrorType::UnexpectedCharacter), t + 1));
            }
            Err(ErrorType::UnexpectedCharacter)
        }
    }

    /// Builds an ordered sequence of exactly `es` values, `es` being
    /// the count the oracle reported for the open bracket; a zero
    /// count short-circuits to the empty array, entering no loop.
    fn parse_array_borrowed(&mut self, es: usize, depth: usize) -> (r: Result<Value, ErrorType>)
        requires
            old(self).wf(),
        ensures
            final(self).wf(),
            old(self).same_stream(*final(self)),
            final(self).spec_idx() >= old(self).spec_idx(),
            r matches Ok(v) ==> (v matches Value::Array(a) && a@.len() == es && value_wf(v)),
            es == 0 ==> (r matches Ok(v) && v matches Value::Array(a) && a@
                == Seq::<Value>::empty() && final(self).spec_idx() == skip_to(
                old(self).spec_toks().len() as int,
                old(self).spec_idx(),
            )),
            es > 0 && depth == 0 ==> r == Err::<Value, ErrorType>(ErrorType::NestingTooDeep)
                && final(self).spec_idx() == old(self).spec_idx(),
            es > 0 && depth > 0 ==> ({
                let pr = spec_parse_elems(old(self).spec_toks(), old(self).spec_counts(),
                    old(self).spec_input(), old(self).spec_idx(), es as int, depth as int);
                &&& final(self).spec_idx() == pr.1
                &&& (match r {
                    Ok(v) => pr.0 matches Ok(svs) && (v matches Value::Array(a) && models_seq(
                        a@,
                        svs,
                    )),
                    Err(e) => pr.0 == Err::<Seq<SpecVal>, ErrorType>(e),
                })
            }),
        decreases depth, 0int,
    {
        if es == 0 {
            self.skip();
            let a: Vec<Value> = Vec::new();
            proof {
                crate::value::lemma_array_wf(a@);
            }
            return Ok(Value::Array(a));
        }
        if depth == 0 {
            return Err(ErrorType::NestingTooDeep);
        }
        let ghost gt = old(self).spec_toks();
        let ghost gc = old(self).spec_counts();
        let ghost gi = old(self).spec_input();
        let ghost i0 = old(self).spec_idx();
        let ghost dd = depth as int;
        let ghost mut done: Seq<SpecVal> = Seq::empty();
        let mut res: Vec<Value> = Vec::with_capacity(es);
        let mut i: usize = 0;
        while i < es
            invariant
                self.wf(),
                old(self).same_stream(*self),
                self.spec_idx() >= old(self).spec_idx(),
                gt == self.spec_toks(),
                gc == self.spec_counts(),
                gi == self.spec_input(),
                i0 == old(self).spec_idx(),
                dd == depth as int,
                depth >= 1,
                i <= es,
                res@.len() == i,
                forall|k: int| 0 <= k < i ==> value_wf(#[trigger] res@[k]),
                models_seq(res@, done),
                ({
                    let rest = spec_parse_elems(gt, gc, gi, self.spec_idx(), es - i, dd);
                    let full = spec_parse_elems(gt, gc, gi, i0, es as int, dd);
                    match rest.0 {
                        Ok(rs) => full == (Ok::<Seq<SpecVal>, ErrorType>(done + rs), rest.1),
                        Err(e) => full == (Err::<Seq<SpecVal>, ErrorType>(e), rest.1),
                    }
                }),
            decreases es - i,
        {
            let ghost pre = self.spec_idx();
            let ghost done_pre = done;
            let ghost res_pre = res@;
            match self.parse_value_borrowed(depth - 1) {
                Ok(v) => {
                    proof {
                        let pv = spec_parse_value(gt, gc, gi, pre, dd - 1);
                        let sv = pv.0->Ok_0;
                        lemma_models_seq_push(res_pre, done_pre, v, sv);
                        done = done.push(sv);
                    }
                    res.push(v);
                },
                Err(e) => {
                    proof {
                        let pv = spec_parse_value(gt, gc, gi, pre, dd - 1);
                        assert(spec_parse_elems(gt, gc, gi, pre, es - i, dd) == (Err::<
                            Seq<SpecVal>,
                            ErrorType,
                        >(e), pv.1));
                    }
                    return Err(e);
                },
            }
            self.skip();
            proof {
                let pv = spec_parse_value(gt, gc, gi, pre, dd - 1);
                let sv = pv.0->Ok_0;
                let i2 = skip_to(gt.len() as int, pv.1);
                assert(self.spec_idx() == i2);
                let rest_new = spec_parse_elems(gt, gc, gi, i2, es - i - 1, dd);
                assert(spec_parse_elems(gt, gc, gi, pre, es - i, dd) == (match rest_new.0 {
                    Ok(rs) => (Ok::<Seq<SpecVal>, ErrorType>(seq![sv] + rs), rest_new.1),
                    Err(e) => (Err::<Seq<SpecVal>, ErrorType>(e), rest_new.1),
                }));
                if rest_new.0 is Ok {
                    let rs = rest_new.0->Ok_0;
                    assert(done_pre + (seq![sv] + rs) =~= done + rs);
                }
            }
            i += 1;
        }
        proof {
            crate::value::lemma_array_wf(res@);
            assert(spec_parse_elems(gt, gc, gi, self.spec_idx(), 0, dd) == (Ok::<
                Seq<SpecVal>,
                ErrorType,
            >(Seq::empty()), self.spec_idx()));
            assert(done + Seq::<SpecVal>::empty() =~= done);
        }
        Ok(Value::Array(res))
    }

    /// Builds an ordered-key map of exactly `es` pairs, `es` being
    /// the count the oracle reported for the open brace; a zero count
    /// short-circuits to the empty object, entering no loop.
    fn parse_map_borrowed(&mut self, es: usize, depth: usize) -> (r: Result<Value, ErrorType>)
        requires
            old(self).wf(),
        ensures
            final(self).wf(),
            old(self).same_stream(*final(self)),
            final(self).spec_idx() >= old(self).spec_idx(),
            r matches Ok(v) ==> (v matches Value::Object(m) && m@.len() == es && value_wf(v)),
            es == 0 ==> (r matches Ok(v) && v matches Value::Object(m) && m@
                == Seq::<(Vec<u8>, Value)>::empty() && final(self).spec_idx() == skip_to(
                old(self).spec_toks().len() as int,
                old(self).spec_idx(),
            )),
            es > 0 && depth == 0 ==> r == Err::<Value, ErrorType>(ErrorType::NestingTooDeep)
                && final(self).spec_idx() == old(self).spec_idx(),
            es > 0 && depth > 0 ==> ({
                let pr = spec_parse_pairs(old(self).spec_toks(), old(self).spec_counts(),
                    old(self).spec_input(), old(self).spec_idx(), es as int, depth as int);
                &&& final(self).spec_idx() == pr.1
                &&& (match r {
                    Ok(v) => pr.0 matches Ok(ps) && (v matches Value::Object(m) && models_entries(
                        m@,
                        ps,
                    )),
                    Err(e) => pr.0 == Err::<Seq<(Seq<u8>, SpecVal)>, ErrorType>(e),
                })
            }),
        decreases depth, 0int,
    {
        if es == 0 {
            self.skip();
            let m = ObjectMap::new();
            proof {
                crate::object::lemma_values_wf(m);
            }
            return Ok(Value::Object(m));
        }
        if depth == 0 {
            return Err(ErrorType::NestingTooDeep);
        }
        let ghost gt = old(self).spec_toks();
        let ghost gc = old(self).spec_counts();
        let ghost gi = old(self).spec_input();
        let ghost i0 = old(self).spec_idx();
        let ghost dd = depth as int;
        let ghost mut done: Seq<(Seq<u8>, SpecVal)> = Seq::empty();
        let mut res = ObjectMap::with_capacity(es);
        let mut i: usize = 0;
        while i < es
            invariant
                self.wf(),
                old(self).same_stream(*self),
                self.spec_idx() >= old(self).spec_idx(),
                gt == self.spec_toks(),
                gc == self.spec_counts(),
                gi == self.spec_input(),
                i0 == old(self).spec_idx(),
                dd == depth as int,
                depth >= 1,
                i <= es,
                res.wf(),
                res@.len() == i,
                forall|k: int| 0 <= k < i ==> value_wf(#[trigger] res@[k].1),
                models_entries(res@, done),
                ({
                    let rest = spec_parse_pairs(gt, gc, gi, self.spec_idx(), es - i, dd);
                    let full = spec_parse_pairs(gt, gc, gi, i0, es as int, dd);
                    match rest.0 {
                        Ok(rs) => full == (Ok::<Seq<(Seq<u8>, SpecVal)>, ErrorType>(done + rs),
                            rest.1),
                        Err(e) => full == (Err::<Seq<(Seq<u8>, SpecVal)>, ErrorType>(e), rest.1),
                    }
                }),
            decreases es - i,
        {
            let ghost pre = self.spec_idx();
            if self.idx >= self.structurals.len() {
                proof {
                    assert(spec_parse_pairs(gt, gc, gi, pre, es - i, dd) == (Err::<
                        Seq<(Seq<u8>, SpecVal)>,
                        ErrorType,
                    >(ErrorType::UnexpectedEnd), pre));
                }
                return Err(ErrorType::UnexpectedEnd);
            }
            let kt = self.idx;
            self.skip();
            let key = match self.string_token_content(kt) {
                Ok(kb) => kb,
                Err(e) => {
                    proof {
                        assert(spec_parse_pairs(gt, gc, gi, pre, es - i, dd) == (Err::<
                            Seq<(Seq<u8>, SpecVal)>,
                            ErrorType,
                        >(e), pre + 1));
                    }
                    return Err(e);
                },
            };
            let ghost kb = token_string(gt, gc, gi, pre)->Ok_0;
            self.skip();
            let ghost i2 = self.spec_idx();
            let v = match self.parse_value_borrowed(depth - 1) {
                Ok(v) => v,
                Err(e) => {
                    proof {
                        let pv = spec_parse_value(gt, gc, gi, i2, dd - 1);
                        assert(spec_parse_pairs(gt, gc, gi, pre, es - i, dd) == (Err::<
                            Seq<(Seq<u8>, SpecVal)>,
                            ErrorType,
                        >(e), pv.1));
                    }
                    return Err(e);
                },
            };
            let ghost old_res = res@;
            let ghost done_pre = done;
            proof {
                let pv = spec_parse_value(gt, gc, gi, i2, dd - 1);
                let sv = pv.0->Ok_0;
                lemma_models_entries_push(old_res, done_pre, (key, v), (kb, sv));
                done = done.push((kb, sv));
            }
            res.insert(key, v);
            proof {
                assert forall|k: int| 0 <= k < i + 1 implies value_wf(#[trigger] res@[k].1) by {
                    if k < i {
                        assert(res@[k] == old_res[k]);
                    }
                }
            }
            self.skip();
            proof {
                let pv = spec_parse_value(gt, gc, gi, i2, dd - 1);
                let sv = pv.0->Ok_0;
                let i3 = skip_to(gt.len() as int, pv.1);
                assert(self.spec_idx() == i3);
                let rest_new = spec_parse_pairs(gt, gc, gi, i3, es - i - 1, dd);
                assert(spec_parse_pairs(gt, gc, gi, pre, es - i, dd) == (match rest_new.0 {
                    Ok(rs) => (Ok::<Seq<(Seq<u8>, SpecVal)>, ErrorType>(seq![(kb, sv)] + rs),
                        rest_new.1),
                    Err(e) => (Err::<Seq<(Seq<u8>, SpecVal)>, ErrorType>(e), rest_new.1),
                }));
                if rest_new.0 is Ok {
                    let rs = rest_new.0->Ok_0;
                    assert(done_pre + (seq![(kb, sv)] + rs) =~= done + rs);
                }
            }
            i += 1;
        }
        proof {
            crate::object::lemma_values_wf(res);
            assert(spec_parse_pairs(gt, gc, gi, self.spec_idx(), 0, dd) == (Ok::<
                Seq<(Seq<u8>, SpecVal)>,
                ErrorType,
            >(Seq::empty()), self.spec_idx()));
            assert(done + Seq::<(Seq<u8>, SpecVal)>::empty() =~= done);
        }
        Ok(Value::Object(res))
    }
}

/// What the dispatch promises for each first byte: the literals map
/// to their values, numbers to the token's integer value, strings to
/// an inline or owned string by the scanner's verdict, containers to
/// a container of exactly the reported count, and any other byte to
/// `UnexpectedCharacter`; an exhausted cursor reports `UnexpectedEnd`.
pub open spec fn parse_dispatch_post(d: Deserializer, r: Result<Value, ErrorType>) -> bool {
    &&& (!d.has_next() ==> r == Err::<Value, ErrorType>(ErrorType::UnexpectedEnd))
    &&& (d.has_next() ==> {
        let b = d.cur_byte();
        &&& (b == 110 ==> r == Ok::<Value, ErrorType>(Value::Null))
        &&& (b == 116 ==> r == Ok::<Value, ErrorType>(Value::Bool(true)))
        &&& (b == 102 ==> r == Ok::<Value, ErrorType>(Value::Bool(false)))
        &&& (!starts_value(b) ==> r == Err::<Value, ErrorType>(ErrorType::UnexpectedCharacter))
        &&& ((b == 45 || 48 <= b <= 57) ==> r == (if token_ok(d.spec_input(), d.cur_pos(), b == 45) {
            Ok::<Value, ErrorType>(
                Value::Number(Number::I64(token_value(d.spec_input(), d.cur_pos(), b == 45) as i64)),
            )
        } else {
            Err::<Value, ErrorType>(ErrorType::InvalidNumber)
        }))
        &&& (b == 91 ==> (r matches Ok(v) ==> v matches Value::Array(a) && a@.len()
            == d.cur_count()))
        &&& (b == 91 && d.cur_count() == 0 ==> (r matches Ok(v) && v matches Value::Array(a)
            && a@.len() == 0))
        &&& (b == 123 ==> (r matches Ok(v) ==> v matches Value::Object(m) && m@.len()
            == d.cur_count()))
        &&& (b == 123 && d.cur_count() == 0 ==> (r matches Ok(v) && v matches Value::Object(m)
            && m@.len() == 0))
        &&& (b == QUOTE ==> {
            let w = d.spec_input().skip(d.cur_pos() + 1);
            let small = d.cur_count() <= SMALL_STR_LEN + 2 && has_small_close(w);
            &&& (small ==> (r matches Ok(v) && v matches Value::SmallString(ss) && ss@ == w.take(
                small_close_pos(w),
            )))
            &&& (!small ==> (match r {
                Ok(v) => v matches Value::String(s) && d.string_token_spec(d.spec_idx()) matches Ok(
                    bb,
                ) && s@ == bb,
                Err(e) => d.string_token_spec(d.spec_idx()) == Err::<Seq<u8>, ErrorType>(e),
            }))
        })
    })
}

} // verus!
