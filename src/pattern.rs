use vstd::prelude::*;
use vstd::std_specs::slice::into_iter_elts;

verus! {

/// Byte value of the single-byte no-operation instruction.
pub const NOP: u8 = 0x90;

/// Canonical multi-byte no-operation encodings, by total length.
pub open spec fn nop_table(n: nat) -> Seq<u8> {
    if n == 2 {
        seq![0x66u8, 0x90u8]
    } else if n == 3 {
        seq![0x0Fu8, 0x1Fu8, 0x00u8]
    } else if n == 4 {
        seq![0x0Fu8, 0x1Fu8, 0x40u8, 0x00u8]
    } else if n == 5 {
        seq![0x0Fu8, 0x1Fu8, 0x44u8, 0x00u8, 0x00u8]
    } else if n == 6 {
        seq![0x66u8, 0x0Fu8, 0x1Fu8, 0x44u8, 0x00u8, 0x00u8]
    } else if n == 7 {
        seq![0x0Fu8, 0x1Fu8, 0x80u8, 0x00u8, 0x00u8, 0x00u8, 0x00u8]
    } else if n == 8 {
        seq![0x0Fu8, 0x1Fu8, 0x84u8, 0x00u8, 0x00u8, 0x00u8, 0x00u8, 0x00u8]
    } else if n == 9 {
        seq![0x66u8, 0x0Fu8, 0x1Fu8, 0x84u8, 0x00u8, 0x00u8, 0x00u8, 0x00u8, 0x00u8]
    } else {
        Seq::empty()
    }
}

/// Looks up the canonical no-operation encoding of the given length.
pub fn nop_encoding(len: usize) -> (r: Option<Vec<u8>>)
    ensures
        2 <= len <= 9 ==> r is Some && r->0@ == nop_table(len as nat),
        !(2 <= len <= 9) ==> r is None,
{
    if len == 2 {
        Some(vec![0x66, 0x90])
    } else if len == 3 {
        Some(vec![0x0F, 0x1F, 0x00])
    } else if len == 4 {
        Some(vec![0x0F, 0x1F, 0x40, 0x00])
    } else if len == 5 {
        Some(vec![0x0F, 0x1F, 0x44, 0x00, 0x00])
    } else if len == 6 {
        Some(vec![0x66, 0x0F, 0x1F, 0x44, 0x00, 0x00])
    } else if len == 7 {
        Some(vec![0x0F, 0x1F, 0x80, 0x00, 0x00, 0x00, 0x00])
    } else if len == 8 {
        Some(vec![0x0F, 0x1F, 0x84, 0x00, 0x00, 0x00, 0x00, 0x00])
    } else if len == 9 {
        Some(vec![0x66, 0x0F, 0x1F, 0x84, 0x00, 0x00, 0x00, 0x00, 0x00])
    } else {
        None
    }
}


/// Number of consecutive no-operation bytes of `s` starting at `i`, at most `cap`.
pub open spec fn nop_run(s: Seq<u8>, i: int, cap: nat) -> nat
    decreases cap,
{
    if cap == 0 || i < 0 || i >= s.len() || s[i] != NOP {
        0
    } else {
        1 + nop_run(s, i + 1, (cap - 1) as nat)
    }
}

/// What a chunk of `c` consecutive no-operation bytes is rewritten to.
pub open spec fn nop_chunk(c: nat) -> Seq<u8> {
    if c == 1 {
        seq![NOP]
    } else {
        nop_table(c)
    }
}

/// Canonical form of `s` from position `i` on: each maximal run of no-operation
/// bytes is cut into chunks of at most eight, and each chunk is replaced by the
/// table's encoding of its length (a chunk of one stays as it is).
pub open spec fn canon_from(s: Seq<u8>, i: int) -> Seq<u8>
    decreases s.len() - i via canon_from_decreases
{
    if i < 0 || i >= s.len() {
        Seq::empty()
    } else if s[i] != NOP {
        seq![s[i]] + canon_from(s, i + 1)
    } else {
        let c = 1 + nop_run(s, i + 1, 7);
        nop_chunk(c) + canon_from(s, i + c)
    }
}

#[via_fn]
proof fn canon_from_decreases(s: Seq<u8>, i: int) {
    if 0 <= i < s.len() && s[i] == NOP {
        lemma_nop_run(s, i + 1, 7);
    }
}

/// The no-operation canonical form of a whole byte sequence.
pub open spec fn canon(s: Seq<u8>) -> Seq<u8> {
    canon_from(s, 0)
}

/// No two adjacent bytes of `s` are both no-operation bytes.
pub open spec fn no_adjacent_nops(s: Seq<u8>) -> bool {
    forall|k: int| 0 <= k && k + 1 < s.len() ==> !(#[trigger] s[k] == NOP && s[k + 1] == NOP)
}

proof fn lemma_nop_run(s: Seq<u8>, i: int, cap: nat)
    requires
        0 <= i <= s.len(),
    ensures
        nop_run(s, i, cap) <= cap,
        i + nop_run(s, i, cap) <= s.len(),
        forall|k: int| i <= k < i + nop_run(s, i, cap) ==> s[k] == NOP,
        nop_run(s, i, cap) < cap ==> (i + nop_run(s, i, cap) == s.len() || s[i + nop_run(s, i, cap)] != NOP),
    decreases cap,
{
    if cap > 0 && i < s.len() && s[i] == NOP {
        lemma_nop_run(s, i + 1, (cap - 1) as nat);
    }
}

proof fn lemma_nop_run_exact(s: Seq<u8>, i: int, cap: nat, c: nat)
    requires
        0 <= i,
        i + c <= s.len(),
        c <= cap,
        forall|k: int| i <= k < i + c ==> s[k] == NOP,
        c == cap || i + c == s.len() || s[i + c] != NOP,
    ensures
        nop_run(s, i, cap) == c,
    decreases c,
{
    if c > 0 {
        lemma_nop_run_exact(s, i + 1, (cap - 1) as nat, (c - 1) as nat);
    }
}

proof fn lemma_nop_chunk(c: nat)
    requires
        1 <= c <= 8,
    ensures
        nop_chunk(c).len() == c,
        no_adjacent_nops(nop_chunk(c)),
        nop_chunk(c)[c - 1] == NOP ==> c <= 2,
        nop_chunk(c)[0] == NOP ==> c == 1,
{
    if c == 2 {
        assert(nop_chunk(c) =~= seq![0x66u8, 0x90u8]);
    }
}

proof fn lemma_canon_from(s: Seq<u8>, i: int)
    requires
        0 <= i <= s.len(),
    ensures
        canon_from(s, i).len() == s.len() - i,
        forall|k: int| i <= k < s.len() && s[k] != NOP ==> #[trigger] canon_from(s, i)[k - i] == s[k],
        no_adjacent_nops(canon_from(s, i)),
        forall|k: int|
            i <= k < s.len() && s[k] == NOP && (k == i || s[k - 1] != NOP) && (k + 1 == s.len() || s[k + 1] != NOP)
                ==> #[trigger] canon_from(s, i)[k - i] == NOP,
    decreases s.len() - i,
{
    if i < s.len() {
        let c = if s[i] != NOP { 1nat } else { nop_run(s, i, 8) };
        let head = if s[i] != NOP { seq![s[i]] } else { nop_chunk(c) };
        lemma_nop_run(s, i, 8);
        if s[i] == NOP {
            lemma_nop_chunk(c);
        }
        lemma_canon_from(s, i + c);
        let rest = canon_from(s, i + c);
        assert(canon_from(s, i) == head + rest);
        assert forall|k: int| i <= k < s.len() && s[k] != NOP implies #[trigger] canon_from(s, i)[k - i] == s[k] by {
            if k >= i + c {
                assert(canon_from(s, i)[k - i] == rest[k - (i + c)]);
            }
        }
        assert forall|k: int|
            i <= k < s.len() && s[k] == NOP && (k == i || s[k - 1] != NOP) && (k + 1 == s.len() || s[k + 1] != NOP)
                implies #[trigger] canon_from(s, i)[k - i] == NOP by {
            if k == i {
                lemma_nop_run_exact(s, i, 8, 1);
            } else {
                assert(k >= i + c);
                assert(canon_from(s, i)[k - i] == rest[k - (i + c)]);
            }
        }
        if head[c - 1] == NOP && rest.len() > 0 {
            assert(s[i + c] != NOP);
            assert(rest[(i + c) - (i + c)] == s[i + c]);
        }
        assert forall|k: int| 0 <= k && k + 1 < (head + rest).len() implies !(#[trigger] (head + rest)[k] == NOP && (head + rest)[k + 1] == NOP) by {
            if k + 1 < c {
                assert((head + rest)[k] == head[k]);
            } else if k >= c {
                assert((head + rest)[k] == rest[k - c]);
                assert((head + rest)[k + 1] == rest[k - c + 1]);
            }
        }
    }
}

proof fn lemma_canon_fixed(s: Seq<u8>, i: int)
    requires
        0 <= i <= s.len(),
        no_adjacent_nops(s),
    ensures
        canon_from(s, i) == s.subrange(i, s.len() as int),
    decreases s.len() - i,
{
    if i < s.len() {
        if s[i] == NOP {
            lemma_nop_run_exact(s, i, 8, 1);
        }
        lemma_canon_fixed(s, i + 1);
        assert(canon_from(s, i) =~= s.subrange(i, s.len() as int));
    }
}

/// Canonicalizing no-operation runs keeps the length, keeps every byte that is
/// not a no-operation byte where it was, keeps a lone no-operation byte, and
/// leaves no two adjacent no-operation bytes.
pub proof fn lemma_canon_shape(s: Seq<u8>)
    ensures
        canon(s).len() == s.len(),
        forall|k: int| 0 <= k < s.len() && s[k] != NOP ==> #[trigger] canon(s)[k] == s[k],
        no_adjacent_nops(canon(s)),
        forall|k: int|
            0 <= k < s.len() && s[k] == NOP && (k == 0 || s[k - 1] != NOP) && (k + 1 == s.len() || s[k + 1] != NOP)
                ==> #[trigger] canon(s)[k] == NOP,
{
    lemma_canon_from(s, 0);
    assert forall|k: int|
        0 <= k < s.len() && s[k] == NOP && (k == 0 || s[k - 1] != NOP) && (k + 1 == s.len() || s[k + 1] != NOP)
            implies #[trigger] canon(s)[k] == NOP by {
        assert(canon_from(s, 0)[k - 0] == NOP);
    }
    assert forall|k: int| 0 <= k < s.len() && s[k] != NOP implies #[trigger] canon(s)[k] == s[k] by {
        assert(canon_from(s, 0)[k - 0] == s[k]);
    }
}

/// Canonicalizing no-operation runs a second time changes nothing.
pub proof fn lemma_canon_idempotent(s: Seq<u8>)
    ensures
        canon(canon(s)) == canon(s),
{
    lemma_canon_shape(s);
    lemma_canon_fixed(canon(s), 0);
    assert(canon(s).subrange(0, canon(s).len() as int) =~= canon(s));
}


/// A character with the Unicode `White_Space` property.
pub open spec fn is_space(c: char) -> bool {
    ||| ('\u{9}' <= c && c <= '\u{D}')
    ||| c == ' '
    ||| c == '\u{85}'
    ||| c == '\u{A0}'
    ||| c == '\u{1680}'
    ||| ('\u{2000}' <= c && c <= '\u{200A}')
    ||| c == '\u{2028}'
    ||| c == '\u{2029}'
    ||| c == '\u{202F}'
    ||| c == '\u{205F}'
    ||| c == '\u{3000}'
}

/// The tokens of a text: its maximal runs of characters that are not
/// whitespace, in order.
pub open spec fn split_tokens(s: Seq<char>) -> Seq<Seq<char>>
    decreases s.len(),
{
    if s.len() == 0 {
        Seq::empty()
    } else {
        let prev = split_tokens(s.drop_last());
        if is_space(s.last()) {
            prev
        } else if s.len() > 1 && !is_space(s[s.len() - 2]) {
            prev.update(prev.len() - 1, prev.last().push(s.last()))
        } else {
            prev.push(seq![s.last()])
        }
    }
}

pub open spec fn is_hex_digit(c: char) -> bool {
    ('0' <= c && c <= '9') || ('a' <= c && c <= 'f') || ('A' <= c && c <= 'F')
}

pub open spec fn hex_digit_value(c: char) -> nat {
    if '0' <= c && c <= '9' {
        (c as int - '0' as int) as nat
    } else if 'a' <= c && c <= 'f' {
        (c as int - 'a' as int + 10) as nat
    } else {
        (c as int - 'A' as int + 10) as nat
    }
}

/// Base-16 value of a string of hex digits.
pub open spec fn hex_value(t: Seq<char>) -> nat
    decreases t.len(),
{
    if t.len() == 0 {
        0
    } else {
        hex_value(t.drop_last()) * 16 + hex_digit_value(t.last())
    }
}

/// A token holding the wildcard character stands for any byte.
pub open spec fn is_wild_token(t: Seq<char>) -> bool {
    t.contains('?')
}

/// A token is well formed when it is a wildcard, or a non-empty run of hex
/// digits whose value fits in a byte.
pub open spec fn token_ok(t: Seq<char>) -> bool {
    is_wild_token(t) || (t.len() > 0 && (forall|k: int| 0 <= k < t.len() ==> is_hex_digit(#[trigger] t[k]))
        && hex_value(t) < 256)
}

/// The byte a well-formed token stands for; a wildcard holds zero.
pub open spec fn token_byte(t: Seq<char>) -> u8 {
    if is_wild_token(t) {
        0
    } else {
        hex_value(t) as u8
    }
}

/// The text compiles: it has a token, and every token is well formed.
pub open spec fn compiles(s: Seq<char>) -> bool {
    &&& split_tokens(s).len() > 0
    &&& forall|k: int| 0 <= k < split_tokens(s).len() ==> token_ok(#[trigger] split_tokens(s)[k])
}

/// The bytes of the compiled text, one per token.
pub open spec fn compiled_bytes(s: Seq<char>) -> Seq<u8> {
    Seq::new(split_tokens(s).len(), |k: int| token_byte(split_tokens(s)[k]))
}

proof fn lemma_hex_value_prefix(t: Seq<char>, k: int)
    requires
        0 <= k <= t.len(),
    ensures
        hex_value(t.take(k)) <= hex_value(t),
    decreases t.len(),
{
    if k < t.len() {
        lemma_hex_value_prefix(t.drop_last(), k);
        assert(t.drop_last().take(k) =~= t.take(k));
    } else {
        assert(t.take(k) =~= t);
    }
}

fn char_is_space(c: char) -> (r: bool)
    ensures
        r == is_space(c),
{
    ('\u{9}' <= c && c <= '\u{D}') || c == ' ' || c == '\u{85}' || c == '\u{A0}' || c == '\u{1680}' || ('\u{2000}'
        <= c && c <= '\u{200A}') || c == '\u{2028}' || c == '\u{2029}' || c == '\u{202F}' || c == '\u{205F}' || c
        == '\u{3000}'
}

/// Splits `s` into its whitespace-separated tokens.
fn tokenize(s: &str) -> (r: Vec<Vec<char>>)
    ensures
        r@.len() == split_tokens(s@).len(),
        forall|k: int| 0 <= k < r@.len() ==> #[trigger] r@[k]@ == split_tokens(s@)[k],
{
    let n = s.unicode_len();
    let mut done: Vec<Vec<char>> = Vec::new();
    let mut cur: Vec<char> = Vec::new();
    let mut i: usize = 0;
    while i < n
        invariant
            n == s@.len(),
            0 <= i <= n,
            split_tokens(s@.take(i as int)).len() == done@.len() + if cur@.len() > 0 { 1int } else { 0int },
            forall|k: int| 0 <= k < done@.len() ==> #[trigger] done@[k]@ == split_tokens(s@.take(i as int))[k],
            cur@.len() > 0 ==> cur@ == split_tokens(s@.take(i as int))[done@.len() as int],
            (cur@.len() > 0) == (i > 0 && !is_space(s@[i - 1])),
        decreases n - i,
    {
        let c = s.get_char(i);
        proof {
            assert(s@.take(i + 1).drop_last() =~= s@.take(i as int));
            assert(s@.take(i + 1).last() == c);
            if i > 0 {
                assert(s@.take(i + 1)[i - 1] == s@[i - 1]);
            }
        }
        if char_is_space(c) {
            if cur.len() > 0 {
                done.push(cur);
                cur = Vec::new();
            }
        } else {
            cur.push(c);
            assert(cur@.len() > 0);
        }
        i = i + 1;
    }
    assert(s@.take(n as int) =~= s@);
    if cur.len() > 0 {
        done.push(cur);
    }
    done
}

/// Reads one token: `Some((byte, is_wildcard))` when it is well formed.
fn parse_token(t: &Vec<char>) -> (r: Option<(u8, bool)>)
    ensures
        r is Some <==> token_ok(t@),
        r matches Some(v) ==> v.0 == token_byte(t@) && v.1 == is_wild_token(t@),
{
    let mut k: usize = 0;
    while k < t.len()
        invariant
            0 <= k <= t@.len(),
            forall|m: int| 0 <= m < k ==> t@[m] != '?',
        decreases t@.len() - k,
    {
        if t[k] == '?' {
            assert(t@.contains(t@[k as int]));
            return Some((0, true));
        }
        k = k + 1;
    }
    assert(!is_wild_token(t@));
    if t.len() == 0 {
        return None;
    }
    let mut v: u32 = 0;
    let mut k: usize = 0;
    while k < t.len()
        invariant
            0 <= k <= t@.len(),
            !is_wild_token(t@),
            forall|m: int| 0 <= m < k ==> is_hex_digit(#[trigger] t@[m]),
            v as nat == hex_value(t@.take(k as int)),
            v < 256,
        decreases t@.len() - k,
    {
        let c = t[k];
        let d: u32 = if '0' <= c && c <= '9' {
            (c as u32) - ('0' as u32)
        } else if 'a' <= c && c <= 'f' {
            (c as u32) - ('a' as u32) + 10
        } else if 'A' <= c && c <= 'F' {
            (c as u32) - ('A' as u32) + 10
        } else {
            return None;
        };
        assert(t@.take(k + 1).drop_last() =~= t@.take(k as int));
        v = v * 16 + d;
        if v > 255 {
            proof {
                lemma_hex_value_prefix(t@, k + 1);
            }
            return None;
        }
        k = k + 1;
    }
    assert(t@.take(k as int) =~= t@);
    Some((v as u8, false))
}

/// A compiled byte template: bytes, with the positions that match any byte.
pub struct Pattern {
    pattern: Vec<u8>,
    wildcards: Vec<bool>,
}

impl Pattern {
    /// The template's bytes.
    pub closed spec fn bytes(&self) -> Seq<u8> {
        self.pattern@
    }

    /// Position `j` matches any byte.
    pub closed spec fn is_wild(&self, j: int) -> bool {
        0 <= j < self.pattern@.len() && j < self.wildcards@.len() && self.wildcards@[j]
    }

    /// The wildcard mask covers exactly the bytes.
    pub closed spec fn sized(&self) -> bool {
        self.wildcards@.len() == self.pattern@.len()
    }

    /// A usable template: not empty, and zero at each wildcard position.
    pub open spec fn wf(&self) -> bool {
        &&& self.sized()
        &&& self.bytes().len() > 0
        &&& forall|j: int| #[trigger] self.is_wild(j) ==> 0 <= j < self.bytes().len() && self.bytes()[j] == 0
    }

    /// `p` is what compiling `s` gives, canonicalized when `simplify` is set.
    pub open spec fn compiled_from(p: Pattern, s: Seq<char>, simplify: bool) -> bool {
        &&& p.wf()
        &&& p.bytes().len() == split_tokens(s).len()
        &&& p.bytes() == if simplify { canon(compiled_bytes(s)) } else { compiled_bytes(s) }
        &&& forall|j: int| #[trigger] p.is_wild(j) <==> (0 <= j < split_tokens(s).len() && is_wild_token(split_tokens(s)[j]))
    }

    /// Compiles whitespace-separated tokens, each a byte in hex digits or a
    /// wildcard holding `?`; with `simplfynops`, no-operation runs are canonicalized.
    pub fn new(pattern: &str, simplfynops: bool) -> (r: Option<Pattern>)
        ensures
            r is Some <==> compiles(pattern@),
            pattern@.len() == 0 ==> r is None,
            r matches Some(p) ==> Pattern::compiled_from(p, pattern@, simplfynops),
    {
        let toks = tokenize(pattern);
        if toks.len() == 0 {
            return None;
        }
        let ghost ts = split_tokens(pattern@);
        let mut bytes: Vec<u8> = Vec::new();
        let mut wild: Vec<bool> = Vec::new();
        let mut k: usize = 0;
        while k < toks.len()
            invariant
                ts == split_tokens(pattern@),
                toks@.len() == ts.len(),
                forall|m: int| 0 <= m < toks@.len() ==> #[trigger] toks@[m]@ == ts[m],
                0 <= k <= ts.len(),
                bytes@.len() == k,
                wild@.len() == k,
                forall|m: int| 0 <= m < k ==> token_ok(#[trigger] ts[m]),
                forall|m: int| 0 <= m < k ==> #[trigger] bytes@[m] == token_byte(ts[m]),
                forall|m: int| 0 <= m < k ==> #[trigger] wild@[m] == is_wild_token(ts[m]),
            decreases ts.len() - k,
        {
            match parse_token(&toks[k]) {
                Some((b, w)) => {
                    bytes.push(b);
                    wild.push(w);
                },
                None => {
                    assert(!token_ok(ts[k as int]));
                    return None;
                },
            }
            k = k + 1;
        }
        let mut p = Pattern { pattern: bytes, wildcards: wild };
        assert(p.bytes() =~= compiled_bytes(pattern@));
        proof {
            lemma_canon_shape(p.bytes());
        }
        if simplfynops {
            p.simplify_nops();
        }
        assert forall|j: int| #[trigger] p.is_wild(j) implies 0 <= j < p.bytes().len() && p.bytes()[j] == 0 by {
            assert(compiled_bytes(pattern@)[j] == 0);
        }
        Some(p)
    }

    /// Rewrites each run of single-byte no-operations into the canonical
    /// multi-byte encodings of the same total length.
    pub fn simplify_nops(&mut self) -> (r: &mut Pattern)
        requires
            old(self).sized(),
            forall|j: int| #[trigger] old(self).is_wild(j) ==> old(self).bytes()[j] == 0,
        ensures
            r.bytes() == canon(old(self).bytes()),
            r.sized(),
            old(self).wf() ==> r.wf(),
            forall|j: int| #[trigger] r.is_wild(j) <==> old(self).is_wild(j),
            *final(self) == *final(r),
    {
        let n = self.pattern.len();
        let ghost s = self.pattern@;
        let mut out: Vec<u8> = Vec::new();
        let mut i: usize = 0;
        proof {
            lemma_canon_shape(s);
        }
        while i < n
            invariant
                n == s.len(),
                self.pattern@ == s,
                0 <= i <= n,
                out@.len() == i,
                canon(s) == out@ + canon_from(s, i as int),
            decreases n - i,
        {
            if self.pattern[i] != NOP {
                let b = self.pattern[i];
                assert(canon_from(s, i as int) == seq![b] + canon_from(s, i + 1));
                out.push(b);
                assert(canon(s) =~= out@ + canon_from(s, i + 1));
                i = i + 1;
            } else {
                let mut j: usize = i;
                while j < n && j - i < 8 && self.pattern[j] == NOP
                    invariant
                        self.pattern@ == s,
                        n == s.len(),
                        i <= j <= n,
                        j - i <= 8,
                        forall|k: int| i <= k < j ==> s[k] == NOP,
                    decreases n - j,
                {
                    j = j + 1;
                }
                let c = j - i;
                proof {
                    lemma_nop_run_exact(s, i as int, 8, c as nat);
                    lemma_nop_run_exact(s, i + 1, 7, (c - 1) as nat);
                    lemma_canon_from(s, i as int);
                    lemma_canon_from(s, j as int);
                }
                assert(canon_from(s, i as int) == nop_chunk(c as nat) + canon_from(s, j as int));
                if c == 1 {
                    out.push(NOP);
                } else {
                    let mut enc = nop_encoding(c).unwrap();
                    out.append(&mut enc);
                }
                assert(canon(s) =~= out@ + canon_from(s, j as int));
                i = j;
            }
        }
        assert(out@ =~= canon(s));
        self.pattern = out;
        proof {
            lemma_canon_shape(s);
        }
        assert forall|j: int| #[trigger] self.is_wild(j) implies 0 <= j < self.bytes().len() && self.bytes()[j] == 0 by {
            assert(old(self).is_wild(j));
            assert(s[j] == 0);
        }
        self
    }
}


impl Pattern {
    /// The window of `data` at offset `o` fits and agrees with the template at
    /// every position that is not a wildcard.
    pub open spec fn matches_at(&self, data: Seq<u8>, o: int) -> bool {
        &&& 0 <= o
        &&& o + self.bytes().len() <= data.len()
        &&& forall|j: int| 0 <= j < self.bytes().len() ==> #[trigger] self.is_wild(j) || data[o + j] == self.bytes()[j]
    }

    /// The matching offsets below `k`, in ascending order.
    pub open spec fn matches_below(&self, data: Seq<u8>, k: int) -> Seq<usize>
        decreases k,
    {
        if k <= 0 {
            Seq::empty()
        } else if self.matches_at(data, k - 1) {
            self.matches_below(data, k - 1).push((k - 1) as usize)
        } else {
            self.matches_below(data, k - 1)
        }
    }

    /// Every matching offset in `data`, in ascending order.
    pub open spec fn all_matches(&self, data: Seq<u8>) -> Seq<usize> {
        self.matches_below(data, data.len() - self.bytes().len() + 1)
    }

    fn window_matches(&self, data: &[u8], o: usize) -> (r: bool)
        requires
            self.wf(),
            o + self.bytes().len() <= data@.len(),
        ensures
            r == self.matches_at(data@, o as int),
    {
        let m = self.pattern.len();
        let n = data.len();
        let mut j: usize = 0;
        while j < m
            invariant
                n == data@.len(),
                self.wf(),
                m == self.bytes().len(),
                o + m <= data@.len(),
                0 <= j <= m,
                forall|i: int| 0 <= i < j ==> #[trigger] self.is_wild(i) || data@[o + i] == self.bytes()[i],
            decreases m - j,
        {
            if !self.wildcards[j] && data[o + j] != self.pattern[j] {
                assert(!(self.is_wild(j as int) || data@[o + j] == self.bytes()[j as int]));
                return false;
            }
            j = j + 1;
        }
        true
    }

    /// A template holding `bytes` as they are, with a wildcard at each zero
    /// byte; absent when `bytes` is empty.
    pub fn from_bytes(bytes: &[u8]) -> (r: Option<Pattern>)
        ensures
            r is Some <==> bytes@.len() > 0,
            r matches Some(p) ==> p.wf() && p.bytes() == bytes@ && (forall|j: int|
                #[trigger] p.is_wild(j) <==> (0 <= j < bytes@.len() && bytes@[j] == 0)),
    {
        if bytes.len() == 0 {
            return None;
        }
        let mut pattern: Vec<u8> = Vec::new();
        let mut wildcards: Vec<bool> = Vec::new();
        let mut i: usize = 0;
        while i < bytes.len()
            invariant
                0 <= i <= bytes@.len(),
                pattern@ == bytes@.take(i as int),
                wildcards@.len() == i,
                forall|j: int| 0 <= j < i ==> #[trigger] wildcards@[j] == (bytes@[j] == 0),
            decreases bytes@.len() - i,
        {
            pattern.push(bytes[i]);
            wildcards.push(bytes[i] == 0);
            assert(pattern@ =~= bytes@.take(i + 1));
            i = i + 1;
        }
        assert(pattern@ =~= bytes@);
        Some(Pattern { pattern, wildcards })
    }

    /// Starts building a template from its text.
    pub fn builder(pattern: &str) -> (r: PatternBuilder)
        ensures
            r.text() == pattern@,
            !r.simplifies(),
    {
        PatternBuilder::new(pattern)
    }

    pub fn is_empty(&self) -> (r: bool)
        ensures
            r == (self.bytes().len() == 0),
    {
        self.pattern.len() == 0
    }

    /// The template's byte at `index`.
    pub fn byte_at(&self, index: usize) -> (r: u8)
        requires
            index < self.bytes().len(),
        ensures
            r == self.bytes()[index as int],
    {
        self.pattern[index]
    }

    pub fn len(&self) -> (r: usize)
        ensures
            r == self.bytes().len(),
    {
        self.pattern.len()
    }

    /// Walks the template's bytes.
    pub fn iter(&self) -> (r: std::slice::Iter<'_, u8>)
        ensures
            into_iter_elts(r) == self.bytes(),
    {
        let r = self.pattern.as_slice().iter();
        proof {
            assert(vstd::std_specs::iter::IteratorSpec::remaining(&r).unref() =~= self.bytes());
        }
        r
    }

    /// The first offset at which the template matches `data`, if any.
    pub fn matches(&self, data: &[u8]) -> (r: Option<usize>)
        requires
            self.wf(),
        ensures
            r matches Some(o) ==> self.matches_at(data@, o as int) && forall|q: int|
                0 <= q < o ==> !#[trigger] self.matches_at(data@, q),
            r is None ==> forall|q: int| !#[trigger] self.matches_at(data@, q),
    {
        let m = self.pattern.len();
        if data.len() < m {
            return None;
        }
        let last = data.len() - m;
        let n = data.len();
        let mut o: usize = 0;
        while o <= last
            invariant
                n == data@.len(),
                self.wf(),
                m == self.bytes().len(),
                last + m == data@.len(),
                forall|q: int| 0 <= q < o ==> !#[trigger] self.matches_at(data@, q),
            decreases last + 1 - o,
        {
            if self.window_matches(data, o) {
                return Some(o);
            }
            o = o + 1;
        }
        None
    }

    /// Position `index` matches any byte.
    pub fn is_wildcard(&self, index: usize) -> (r: bool)
        requires
            self.wf(),
        ensures
            r == self.is_wild(index as int),
    {
        index < self.wildcards.len() && self.wildcards[index]
    }

    /// Every offset at which the template matches `data`, in ascending order.
    pub fn matches_all(&self, data: &[u8]) -> (r: Vec<usize>)
        requires
            self.wf(),
        ensures
            r@ == self.all_matches(data@),
            forall|i: int| 0 <= i < r@.len() ==> #[trigger] self.matches_at(data@, r@[i] as int),
            forall|i: int| 0 <= i < r@.len() ==> #[trigger] r@[i] + self.bytes().len() <= data@.len(),
            forall|i: int, k: int| 0 <= i < k < r@.len() ==> r@[i] < r@[k],
            forall|q: int| #[trigger] self.matches_at(data@, q) ==> exists|i: int| 0 <= i < r@.len() && r@[i] == q,
            data@.len() < self.bytes().len() ==> r@.len() == 0,
    {
        let m = self.pattern.len();
        let mut r: Vec<usize> = Vec::new();
        if data.len() < m {
            assert(r@ =~= self.all_matches(data@));
            return r;
        }
        let last = data.len() - m;
        let n = data.len();
        let mut o: usize = 0;
        while o <= last
            invariant
                n == data@.len(),
                self.wf(),
                m == self.bytes().len(),
                last + m == data@.len(),
                0 <= o <= last + 1,
                r@ == self.matches_below(data@, o as int),
                forall|i: int| 0 <= i < r@.len() ==> #[trigger] self.matches_at(data@, r@[i] as int),
                forall|i: int| 0 <= i < r@.len() ==> #[trigger] r@[i] < o,
                forall|i: int, k: int| 0 <= i < k < r@.len() ==> r@[i] < r@[k],
                forall|q: int| 0 <= q < o && #[trigger] self.matches_at(data@, q) ==> exists|i: int| 0 <= i < r@.len() && r@[i] == q,
            decreases last + 1 - o,
        {
            let ghost before = r@;
            let found = self.window_matches(data, o);
            if found {
                r.push(o);
                assert(r@[r@.len() - 1] == o);
            }
            assert forall|q: int| 0 <= q < o + 1 && #[trigger] self.matches_at(data@, q) implies exists|i: int|
                0 <= i < r@.len() && r@[i] == q by {
                if q < o {
                    let i = choose|i: int| 0 <= i < before.len() && before[i] == q;
                    assert(r@[i] == q);
                } else {
                    assert(r@[r@.len() - 1] == q);
                }
            }
            o = o + 1;
        }
        assert forall|i: int| 0 <= i < r@.len() implies #[trigger] r@[i] + self.bytes().len() <= data@.len() by {
            assert(self.matches_at(data@, r@[i] as int));
        }
        r
    }
}

/// Without wildcards, a template matches at an offset exactly when its bytes
/// occur there.
pub proof fn lemma_exact_match(p: Pattern, data: Seq<u8>, o: int)
    requires
        p.wf(),
        forall|j: int| !#[trigger] p.is_wild(j),
    ensures
        p.matches_at(data, o) <==> (0 <= o && o + p.bytes().len() <= data.len() && data.subrange(o, o + p.bytes().len())
            == p.bytes()),
{
    if 0 <= o && o + p.bytes().len() <= data.len() {
        if p.matches_at(data, o) {
            assert forall|j: int| 0 <= j < p.bytes().len() implies #[trigger] data.subrange(o, o + p.bytes().len())[j]
                == p.bytes()[j] by {
                assert(!p.is_wild(j));
            }
            assert(data.subrange(o, o + p.bytes().len()) =~= p.bytes());
        }
        if data.subrange(o, o + p.bytes().len()) == p.bytes() {
            assert forall|j: int| 0 <= j < p.bytes().len() implies #[trigger] p.is_wild(j) || data[o + j] == p.bytes()[j] by {
                assert(data.subrange(o, o + p.bytes().len())[j] == data[o + j]);
            }
        }
    }
}

proof fn lemma_matches_below_every(p: Pattern, data: Seq<u8>, k: int)
    requires
        0 <= k,
        forall|q: int| 0 <= q < k ==> #[trigger] p.matches_at(data, q),
    ensures
        p.matches_below(data, k) == Seq::new(k as nat, |i: int| i as usize),
    decreases k,
{
    if k > 0 {
        lemma_matches_below_every(p, data, k - 1);
        assert(p.matches_at(data, k - 1));
        assert(p.matches_below(data, k) =~= Seq::new(k as nat, |i: int| i as usize));
    }
}

/// A template made only of wildcards matches at every offset where it fits,
/// and nowhere else.
pub proof fn lemma_all_wild_match(p: Pattern, data: Seq<u8>)
    requires
        p.wf(),
        forall|j: int| 0 <= j < p.bytes().len() ==> #[trigger] p.is_wild(j),
        p.bytes().len() <= data.len(),
    ensures
        forall|o: int| p.matches_at(data, o) <==> 0 <= o <= data.len() - p.bytes().len(),
        p.all_matches(data) == Seq::new((data.len() - p.bytes().len() + 1) as nat, |i: int| i as usize),
{
    lemma_matches_below_every(p, data, data.len() - p.bytes().len() + 1);
}

/// A template under construction: its text, and whether no-operation runs
/// are to be canonicalized.
pub struct PatternBuilder {
    pat: String,
    should_simplify_nops: bool,
}

impl PatternBuilder {
    pub closed spec fn text(&self) -> Seq<char> {
        self.pat@
    }

    pub closed spec fn simplifies(&self) -> bool {
        self.should_simplify_nops
    }

    pub fn new(pattern: &str) -> (r: PatternBuilder)
        ensures
            r.text() == pattern@,
            !r.simplifies(),
    {
        PatternBuilder { pat: pattern.to_owned(), should_simplify_nops: false }
    }

    /// Asks for no-operation canonicalization of the built template.
    pub fn simplify_nops(self) -> (r: PatternBuilder)
        ensures
            r.text() == self.text(),
            r.simplifies(),
    {
        let mut b = self;
        b.should_simplify_nops = true;
        b
    }

    /// Compiles the text; absent when a token is malformed or there are none.
    pub fn build(self) -> (r: Option<Pattern>)
        ensures
            r is Some <==> compiles(self.text()),
            r matches Some(p) ==> Pattern::compiled_from(p, self.text(), self.simplifies()),
    {
        Pattern::new(self.pat.as_str(), self.should_simplify_nops)
    }
}

} // verus!
