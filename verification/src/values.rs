//! Plain values for what the Soroban host hands out as handles: symbols,
//! addresses and 256-bit integers.
use vstd::prelude::*;

verus! {

/// `256^n`.
pub open spec fn pow256(n: nat) -> nat
    decreases n,
{
    if n == 0 {
        1
    } else {
        256 * pow256((n - 1) as nat)
    }
}

/// The characters a symbol may hold: letters, digits and the underscore.
pub open spec fn is_symbol_char(c: char) -> bool {
    ('0' <= c && c <= '9') || ('A' <= c && c <= 'Z') || c == '_' || ('a' <= c && c <= 'z')
}

/// A text that names a symbol: at most 32 symbol characters.
pub open spec fn is_symbol_text(text: Seq<char>) -> bool {
    text.len() <= 32 && forall|i: int| 0 <= i < text.len() ==> is_symbol_char(#[trigger] text[i])
}

/// The byte that position `i` of a text contributes to a packed symbol; 0
/// past the end and for a character that no symbol holds.
pub open spec fn code_at(text: Seq<char>, i: int) -> int {
    if 0 <= i < text.len() && is_symbol_char(text[i]) {
        text[i] as int
    } else {
        0
    }
}

/// `n` bytes of a text starting at `from`, read as one big-endian number.
pub open spec fn packed(text: Seq<char>, from: int, n: nat) -> int
    decreases n,
{
    if n == 0 {
        0
    } else {
        packed(text, from, (n - 1) as nat) * 256 + code_at(text, from + n - 1)
    }
}

/// The symbol that a text names.
pub open spec fn symbol_of(text: Seq<char>) -> Symbol {
    Symbol { hi: packed(text, 0, 16) as u128, lo: packed(text, 16, 16) as u128 }
}

/// Base-256 digit `k` of `word`, counted from the least significant.
pub open spec fn digit(word: u128, k: nat) -> u8 {
    ((word as nat / pow256(k)) % 256) as u8
}

/// A short name: up to 32 bytes, packed big-endian and padded with zeros, so
/// that comparing `(hi, lo)` compares the names byte by byte.
#[derive(Clone, Copy, PartialEq, Eq, PartialOrd, Ord, Structural, Debug)]
pub struct Symbol {
    pub hi: u128,
    pub lo: u128,
}

proof fn lemma_packed_bound(text: Seq<char>, from: int, n: nat)
    ensures
        0 <= packed(text, from, n) < pow256(n),
    decreases n,
{
    if n > 0 {
        lemma_packed_bound(text, from, (n - 1) as nat);
    }
}

proof fn lemma_pow256_16()
    ensures
        pow256(16) == 0x1_0000_0000_0000_0000_0000_0000_0000_0000,
{
    reveal_with_fuel(pow256, 17);
}

proof fn lemma_pow256_mono(a: nat, b: nat)
    requires
        a <= b,
    ensures
        0 < pow256(a) <= pow256(b),
    decreases b,
{
    if b > 0 {
        if a < b {
            lemma_pow256_mono(a, (b - 1) as nat);
        } else {
            lemma_pow256_mono((a - 1) as nat, (b - 1) as nat);
        }
    }
}

/// Dropping the last `k` bytes of a packed number is a division by `256^k`.
proof fn lemma_packed_prefix(text: Seq<char>, from: int, n: nat, k: nat)
    requires
        k <= n,
    ensures
        packed(text, from, n) / pow256(k) as int == packed(text, from, (n - k) as nat),
    decreases k,
{
    if k == 0 {
        assert(packed(text, from, n) / 1 == packed(text, from, n));
        assert(pow256(0) as int == 1);
    } else {
        lemma_packed_prefix(text, from, n, (k - 1) as nat);
        let p = packed(text, from, n);
        let q = pow256((k - 1) as nat) as int;
        lemma_packed_bound(text, from, n);
        lemma_pow256_mono(0, (k - 1) as nat);
        vstd::arithmetic::div_mod::lemma_div_denominator(p, q, 256);
        assert(pow256(k) as int == q * 256);
        let m = (n - k + 1) as nat;
        assert(packed(text, from, m) == packed(text, from, (m - 1) as nat) * 256 + code_at(
            text,
            from + m - 1,
        ));
    }
}

impl Symbol {
    /// The 32 bytes of the packed name, padding included.
    pub open spec fn byte_at(self, i: int) -> u8 {
        if 0 <= i < 16 {
            digit(self.hi, (15 - i) as nat)
        } else {
            digit(self.lo, (31 - i) as nat)
        }
    }

    /// The first `n` bytes of the name, or fewer when it ends before.
    pub open spec fn prefix(self, n: nat) -> Seq<u8>
        decreases n,
    {
        if n == 0 {
            Seq::empty()
        } else {
            let rest = self.prefix((n - 1) as nat);
            if rest.len() == n - 1 && self.byte_at(n - 1) != 0 {
                rest.push(self.byte_at(n - 1))
            } else {
                rest
            }
        }
    }

    /// The bytes of the name, without the padding.
    pub open spec fn bytes(self) -> Seq<u8> {
        self.prefix(32)
    }

    /// The name as text.
    pub open spec fn text(self) -> Seq<char> {
        self.bytes().map_values(|b: u8| b as char)
    }

    /// Whether the name is made of letters, digits and underscores.
    pub open spec fn is_valid(self) -> bool {
        is_symbol_text(self.text())
    }

    /// Pack `text`. Only a text of at most 32 symbol characters reads back
    /// unchanged; see [`Symbol::new`] for the checked form.
    pub fn from_text(text: &str) -> (symbol: Symbol)
        ensures
            symbol == symbol_of(text@),
    {
        let hi = pack_half(text, 0);
        let lo = pack_half(text, 16);
        Symbol { hi, lo }
    }

    /// The symbol that `text` names, if it names one.
    pub fn new(text: &str) -> (symbol: Option<Symbol>)
        ensures
            symbol is Some <==> is_symbol_text(text@),
            symbol is Some ==> symbol == Some(symbol_of(text@)) && symbol->0.is_valid(),
    {
        let n = text.unicode_len();
        if n > 32 {
            return None;
        }
        let mut i: usize = 0;
        while i < n
            invariant
                n == text@.len(),
                i <= n,
                forall|j: int| 0 <= j < i ==> is_symbol_char(#[trigger] text@[j]),
            decreases n - i,
        {
            let c = text.get_char(i);
            if !symbol_char(c) {
                assert(!is_symbol_char(text@[i as int]));
                return None;
            }
            i += 1;
        }
        proof {
            symbol_reads_back(text@);
        }
        Some(Symbol::from_text(text))
    }

    /// The bytes of the name.
    pub fn to_bytes(&self) -> (bytes: Vec<u8>)
        ensures
            bytes@ == self.bytes(),
    {
        let hi = digits(self.hi);
        let lo = digits(self.lo);
        let mut out: Vec<u8> = Vec::new();
        let mut i: usize = 0;
        let mut open = true;
        while i < 32
            invariant
                i <= 32,
                hi@.len() == 16,
                lo@.len() == 16,
                forall|k: int| 0 <= k < 16 ==> #[trigger] hi@[k] == digit(self.hi, k as nat),
                forall|k: int| 0 <= k < 16 ==> #[trigger] lo@[k] == digit(self.lo, k as nat),
                out@ == self.prefix(i as nat),
                open == (out@.len() == i),
                out@.len() <= i,
            decreases 32 - i,
        {
            let b: u8 = if i < 16 {
                hi[15 - i]
            } else {
                lo[31 - i]
            };
            assert(b == self.byte_at(i as int));
            if open && b != 0 {
                out.push(b);
            } else {
                open = false;
            }
            i += 1;
        }
        out
    }
}

/// Whether `c` may stand in a symbol.
fn symbol_char(c: char) -> (b: bool)
    ensures
        b == is_symbol_char(c),
{
    ('0' <= c && c <= '9') || ('A' <= c && c <= 'Z') || c == '_' || ('a' <= c && c <= 'z')
}

/// Pack 16 characters of `text`, starting at `from`.
fn pack_half(text: &str, from: usize) -> (word: u128)
    requires
        from <= 16,
    ensures
        word == packed(text@, from as int, 16),
{
    let n = text.unicode_len();
    let mut word: u128 = 0;
    let mut i: usize = 0;
    proof {
        lemma_pow256_16();
    }
    while i < 16
        invariant
            n == text@.len(),
            from <= 16,
            i <= 16,
            word == packed(text@, from as int, i as nat),
            pow256(16) == 0x1_0000_0000_0000_0000_0000_0000_0000_0000,
        decreases 16 - i,
    {
        let at = from + i;
        let code: u128 = if at < n {
            let c = text.get_char(at);
            if symbol_char(c) {
                c as u128
            } else {
                0
            }
        } else {
            0
        };
        proof {
            lemma_packed_bound(text@, from as int, (i + 1) as nat);
            lemma_pow256_mono((i + 1) as nat, 16);
        }
        assert(code == code_at(text@, from + i));
        word = word * 256 + code;
        i += 1;
    }
    word
}

/// The 16 base-256 digits of `word`, least significant first.
fn digits(word: u128) -> (out: Vec<u8>)
    ensures
        out@.len() == 16,
        forall|k: int| 0 <= k < 16 ==> #[trigger] out@[k] == digit(word, k as nat),
{
    let mut out: Vec<u8> = Vec::new();
    let mut rest = word;
    assert(word as nat / 1 == word as nat);
    assert(pow256(0) == 1);
    while out.len() < 16
        invariant
            out@.len() <= 16,
            rest as nat == word as nat / pow256(out@.len()),
            forall|k: int| 0 <= k < out@.len() ==> #[trigger] out@[k] == digit(word, k as nat),
        decreases 16 - out@.len(),
    {
        let ghost k = out@.len();
        proof {
            lemma_pow256_mono(0, k);
            vstd::arithmetic::div_mod::lemma_div_denominator(word as int, pow256(k) as int, 256);
            assert(pow256(k) * 256 == pow256(k + 1)) by {
                assert(pow256(k + 1) == 256 * pow256(k));
            }
        }
        out.push((rest % 256) as u8);
        rest = rest / 256;
    }
    out
}

/// Packing loses nothing: the bytes of the symbol that a text names are the
/// characters of that text.
pub proof fn symbol_reads_back(text: Seq<char>)
    requires
        is_symbol_text(text),
    ensures
        symbol_of(text).bytes() == text.map_values(|c: char| c as u8),
        symbol_of(text).text() == text,
        symbol_of(text).is_valid(),
{
    let s = symbol_of(text);
    lemma_pow256_16();
    lemma_packed_bound(text, 0, 16);
    lemma_packed_bound(text, 16, 16);
    assert forall|i: int| 0 <= i < 32 implies s.byte_at(i) as int == code_at(text, i) by {
        let from: int = if i < 16 { 0 } else { 16 };
        let k = (15 - (i - from)) as nat;
        let word = packed(text, from, 16);
        lemma_packed_prefix(text, from, 16, k);
        let n = (16 - k) as nat;
        assert(packed(text, from, n) == packed(text, from, (n - 1) as nat) * 256 + code_at(
            text,
            from + n - 1,
        ));
        assert(from + n - 1 == i);
        assert(0 <= code_at(text, i) < 256);
    }
    let whole = text.map_values(|c: char| c as u8);
    lemma_prefix_of_text(text, 32);
    assert(whole.take(text.len() as int) =~= whole);
    assert(s.text() =~= text) by {
        assert forall|i: int| 0 <= i < text.len() implies s.text()[i] == text[i] by {
            assert(is_symbol_char(text[i]));
            assert(s.bytes()[i] == text[i] as u8);
        }
    }
}

/// Two texts that name the same symbol are the same text.
pub proof fn symbols_tell_texts_apart(a: Seq<char>, b: Seq<char>)
    requires
        is_symbol_text(a),
        is_symbol_text(b),
        symbol_of(a) == symbol_of(b),
    ensures
        a == b,
{
    symbol_reads_back(a);
    symbol_reads_back(b);
}

proof fn lemma_prefix_of_text(text: Seq<char>, n: nat)
    requires
        is_symbol_text(text),
        n <= 32,
        forall|i: int| 0 <= i < 32 ==> #[trigger] symbol_of(text).byte_at(i) as int == code_at(text, i),
    ensures
        symbol_of(text).prefix(n) == text.map_values(|c: char| c as u8).take(
            if n <= text.len() {
                n as int
            } else {
                text.len() as int
            },
        ),
    decreases n,
{
    let whole = text.map_values(|c: char| c as u8);
    if n == 0 {
        assert(whole.take(0) =~= Seq::<u8>::empty());
    } else {
        lemma_prefix_of_text(text, (n - 1) as nat);
        let b = symbol_of(text).byte_at(n - 1);
        assert(b as int == code_at(text, n - 1));
        if n <= text.len() {
            assert(is_symbol_char(text[n - 1]));
            assert(b == text[n - 1] as u8);
            assert(whole.take(n - 1).push(b) =~= whole.take(n as int));
        }
    }
}

/// The 32-byte identity of an account or of a contract.
#[derive(Clone, Copy, PartialEq, Eq, PartialOrd, Ord, Structural, Debug)]
pub struct Address {
    pub is_contract: bool,
    pub hi: u128,
    pub lo: u128,
}

/// The low `n` bytes of a number, the most significant one first.
pub open spec fn big_endian(word: nat, n: nat) -> Seq<u8>
    decreases n,
{
    if n == 0 {
        Seq::empty()
    } else {
        big_endian(word / 256, (n - 1) as nat).push((word % 256) as u8)
    }
}

/// The low `n` bytes of a number, the most significant one first.
pub fn to_big_endian(word: u128, n: usize) -> (bytes: Vec<u8>)
    ensures
        bytes@ == big_endian(word as nat, n as nat),
        bytes@.len() == n,
    decreases n,
{
    if n == 0 {
        Vec::new()
    } else {
        let mut bytes = to_big_endian(word / 256, n - 1);
        bytes.push((word % 256) as u8);
        bytes
    }
}

/// Two's complement of a signed number, as a number.
pub open spec fn twos_complement(v: i128) -> nat {
    if v >= 0 {
        v as nat
    } else {
        (v + 0x1_0000_0000_0000_0000_0000_0000_0000_0000) as nat
    }
}

/// Two's complement of a signed number, as a number.
pub fn to_twos_complement(v: i128) -> (word: u128)
    ensures
        word == twos_complement(v),
{
    if v >= 0 {
        v as u128
    } else {
        u128::MAX - (-(v + 1)) as u128
    }
}

/// Numbers that fit in `n` bytes and have the same bytes are the same.
pub proof fn bytes_tell_numbers_apart(a: nat, b: nat, n: nat)
    requires
        a < pow256(n),
        b < pow256(n),
        big_endian(a, n) == big_endian(b, n),
    ensures
        a == b,
    decreases n,
{
    if n > 0 {
        let m = (n - 1) as nat;
        let x = big_endian(a, n);
        let y = big_endian(b, n);
        assert(x.drop_last() =~= big_endian(a / 256, m));
        assert(y.drop_last() =~= big_endian(b / 256, m));
        assert(x.last() == y.last());
        assert((a % 256) as u8 == (b % 256) as u8);
        assert(a / 256 < pow256(m) && b / 256 < pow256(m)) by (nonlinear_arith)
            requires
                a < 256 * pow256(m),
                b < 256 * pow256(m),
        ;
        bytes_tell_numbers_apart(a / 256, b / 256, m);
    }
}

/// How many bytes there are.
pub proof fn lemma_big_endian_len(word: nat, n: nat)
    ensures
        big_endian(word, n).len() == n,
    decreases n,
{
    if n > 0 {
        lemma_big_endian_len(word / 256, (n - 1) as nat);
    }
}

impl Address {
    /// The XDR form of the address.
    pub open spec fn xdr(self) -> Seq<u8> {
        let head = if self.is_contract {
            seq![0u8, 0, 0, 18, 0, 0, 0, 1]
        } else {
            seq![0u8, 0, 0, 18, 0, 0, 0, 0, 0, 0, 0, 0]
        };
        head + big_endian(self.hi as nat, 16) + big_endian(self.lo as nat, 16)
    }

    /// The XDR form of the address: the tag of an address value, the kind of
    /// the address (and of the key, for an account), and the identity.
    pub fn to_xdr(&self) -> (bytes: Vec<u8>)
        ensures
            bytes@ == self.xdr(),
    {
        let mut bytes: Vec<u8> = if self.is_contract {
            vec![0, 0, 0, 18, 0, 0, 0, 1]
        } else {
            vec![0, 0, 0, 18, 0, 0, 0, 0, 0, 0, 0, 0]
        };
        let mut hi = to_big_endian(self.hi, 16);
        let mut lo = to_big_endian(self.lo, 16);
        bytes.append(&mut hi);
        bytes.append(&mut lo);
        bytes
    }
}

/// A 256-bit unsigned integer.
#[derive(Clone, Copy, PartialEq, Eq, Structural, Debug)]
pub struct U256 {
    pub hi: u128,
    pub lo: u128,
}

impl U256 {
    /// The number itself.
    pub open spec fn value(self) -> int {
        self.hi * 0x1_0000_0000_0000_0000_0000_0000_0000_0000 + self.lo
    }

    /// `v` as a 256-bit number.
    pub fn from_u32(v: u32) -> (r: U256)
        ensures
            r.value() == v,
    {
        U256 { hi: 0, lo: v as u128 }
    }

    /// The value, where 128 bits hold it.
    pub fn to_u128(&self) -> (r: Option<u128>)
        ensures
            r is Some <==> self.value() <= u128::MAX,
            r matches Some(v) ==> v == self.value(),
    {
        if self.hi == 0 {
            Some(self.lo)
        } else {
            None
        }
    }
}

/// Whether two texts are the same.
pub fn same_text(a: &str, b: &str) -> (same: bool)
    ensures
        same == (a@ == b@),
{
    let left = a.to_owned();
    let right = b.to_owned();
    left == right
}

} // verus!
