//! Chain hashing for tamper detection.
//!
//! The hash of an entry is the SHA-256 digest of the hash of the entry before
//! it, followed by the payload of the entry. The first entry follows a fixed
//! origin, so that a verifier can derive the head of the chain from scratch.
use crate::audit::records::{StateField, StateSnapshot};
use crate::host;
use crate::values;
use crate::values::{Address, Symbol};
use soroban_sdk::Env;
use vstd::prelude::*;
use vstd::string::*;
use vstd::utf8;

verus! {

/// How many bytes the payload of an entry has.
pub const PAYLOAD_LEN: usize = 216;

/// What the first entry follows.
pub open spec fn chain_origin() -> Seq<u8> {
    Seq::new(32, |i: int| 0u8)
}

/// The bytes of a named number.
pub open spec fn field_bytes(field: StateField) -> Seq<u8> {
    field.key.bytes() + values::big_endian(values::twos_complement(field.value), 16)
}

/// The bytes of named numbers.
pub open spec fn fields_bytes(fields: Seq<StateField>) -> Seq<u8>
    decreases fields.len(),
{
    if fields.len() == 0 {
        Seq::empty()
    } else {
        fields_bytes(fields.drop_last()) + field_bytes(fields.last())
    }
}

/// The bytes of a state: how many named numbers there are, and each in turn.
pub open spec fn state_bytes(fields: Seq<StateField>) -> Seq<u8> {
    values::big_endian(fields.len(), 4) + fields_bytes(fields)
}

/// The bytes of a text.
pub open spec fn text_bytes(text: Seq<char>) -> Seq<u8> {
    utf8::encode_utf8(text)
}

/// The numbers of an entry.
pub open spec fn header(seq: u64, timestamp: u64, event_type_id: u32, permissions: u32) -> Seq<u8> {
    values::big_endian(seq as nat, 8) + values::big_endian(timestamp as nat, 8)
        + values::big_endian(event_type_id as nat, 4) + values::big_endian(permissions as nat, 4)
}

/// The SHA-256 digest of bytes, of which there are always 32.
pub open spec fn digest(data: Seq<u8>) -> Seq<u8> {
    host::sha256_digest(data)@
}

/// Everything of an entry but its numbers, each as the bytes that stand for it
/// in a digest: the strkey of who acted, the portfolio, the outcome, the
/// detail, and the states before and after.
pub open spec fn contents(
    actor: Address,
    portfolio: Symbol,
    outcome: Symbol,
    detail: Seq<char>,
    before: Seq<StateField>,
    after: Seq<StateField>,
) -> Seq<Seq<u8>> {
    seq![
        text_bytes(host::strkey(actor.xdr())),
        portfolio.bytes(),
        outcome.bytes(),
        text_bytes(detail),
        state_bytes(before),
        state_bytes(after),
    ]
}

/// The digests of parts, one after another.
pub open spec fn digests(parts: Seq<Seq<u8>>) -> Seq<u8>
    decreases parts.len(),
{
    if parts.len() == 0 {
        Seq::empty()
    } else {
        digests(parts.drop_last()) + digest(parts.last())
    }
}

/// The hash of an entry that follows another.
pub open spec fn link(prev_hash: Seq<u8>, payload: Seq<u8>) -> Seq<u8> {
    digest(prev_hash + payload)
}

/// The head of a chain of entries.
pub open spec fn chain_head(payloads: Seq<Seq<u8>>) -> Seq<u8>
    decreases payloads.len(),
{
    if payloads.len() == 0 {
        chain_origin()
    } else {
        link(chain_head(payloads.drop_last()), payloads.last())
    }
}

/// The bytes of a state.
fn snapshot_bytes(state: &StateSnapshot) -> (bytes: Vec<u8>)
    requires
        state.fields@.len() <= u32::MAX,
    ensures
        bytes@ == state_bytes(state.fields@),
{
    let ghost fields = state.fields@;
    let ghost count = values::big_endian(fields.len(), 4);
    let mut bytes = values::to_big_endian(state.fields.len() as u128, 4);
    let mut i: usize = 0;
    assert(fields.take(0) =~= Seq::<StateField>::empty());
    assert(bytes@ =~= count + fields_bytes(fields.take(0)));
    while i < state.fields.len()
        invariant
            fields == state.fields@,
            count == values::big_endian(fields.len(), 4),
            i <= fields.len(),
            bytes@ == count + fields_bytes(fields.take(i as int)),
        decreases fields.len() - i,
    {
        let ghost before = bytes@;
        let mut key = state.fields[i].key.to_bytes();
        let mut value = values::to_big_endian(
            values::to_twos_complement(state.fields[i].value),
            16,
        );
        bytes.append(&mut key);
        bytes.append(&mut value);
        proof {
            let next = fields.take(i + 1);
            assert(next.drop_last() =~= fields.take(i as int));
            assert(next.last() == fields[i as int]);
            assert(bytes@ =~= before + field_bytes(fields[i as int]));
            assert(bytes@ =~= count + fields_bytes(next));
        }
        i += 1;
    }
    assert(fields.take(i as int) =~= fields);
    bytes
}

/// The bytes of an address: its strkey.
fn address_bytes(env: &Env, address: &Address) -> (bytes: Vec<u8>)
    ensures
        bytes@ == text_bytes(host::strkey(address.xdr())),
        bytes@.len() == 56,
{
    let xdr = address.to_xdr();
    assert(address.xdr() == xdr@);
    let text = host::address_strkey(env, &xdr);
    proof {
        assert(utf8::is_ascii_chars(text@));
        utf8::is_ascii_chars_encode_utf8(text@);
    }
    text.as_str().as_bytes_vec()
}

/// The bytes by which an entry is hashed, of which there are always as many:
/// its numbers, and the digests of everything else.
pub fn entry_payload(
    env: &Env,
    seq: u64,
    timestamp: u64,
    event_type_id: u32,
    permissions: u32,
    actor: &Address,
    portfolio: &Symbol,
    outcome: &Symbol,
    detail: &String,
    state_before: &StateSnapshot,
    state_after: &StateSnapshot,
) -> (payload: Vec<u8>)
    requires
        text_bytes(detail@).len() <= u32::MAX,
        state_before.fields@.len() <= u32::MAX,
        state_bytes(state_before.fields@).len() <= u32::MAX,
        state_after.fields@.len() <= u32::MAX,
        state_bytes(state_after.fields@).len() <= u32::MAX,
    ensures
        payload@ == header(seq, timestamp, event_type_id, permissions) + digests(
            contents(
                *actor,
                *portfolio,
                *outcome,
                detail@,
                state_before.fields@,
                state_after.fields@,
            ),
        ),
        payload@.len() == PAYLOAD_LEN,
{
    let mut payload = values::to_big_endian(seq as u128, 8);
    let mut part = values::to_big_endian(timestamp as u128, 8);
    payload.append(&mut part);
    let mut part = values::to_big_endian(event_type_id as u128, 4);
    payload.append(&mut part);
    let mut part = values::to_big_endian(permissions as u128, 4);
    payload.append(&mut part);
    assert(payload@ =~= header(seq, timestamp, event_type_id, permissions));
    let ghost head = payload@;
    let mut part = host::sha256(env, &address_bytes(env, actor));
    payload.append(&mut part);
    let portfolio_bytes = portfolio.to_bytes();
    proof {
        lemma_symbol_is_short(*portfolio, 32);
        lemma_symbol_is_short(*outcome, 32);
    }
    let mut part = host::sha256(env, &portfolio_bytes);
    payload.append(&mut part);
    let mut part = host::sha256(env, &outcome.to_bytes());
    payload.append(&mut part);
    let mut part = host::sha256(env, &detail.as_str().as_bytes_vec());
    payload.append(&mut part);
    let mut part = host::sha256(env, &snapshot_bytes(state_before));
    payload.append(&mut part);
    let mut part = host::sha256(env, &snapshot_bytes(state_after));
    payload.append(&mut part);
    proof {
        let parts = contents(
            *actor,
            *portfolio,
            *outcome,
            detail@,
            state_before.fields@,
            state_after.fields@,
        );
        lemma_six_digests(parts);
        assert(payload@ =~= head + digests(parts));
    }
    payload
}

/// Six digests, written out.
proof fn lemma_six_digests(parts: Seq<Seq<u8>>)
    requires
        parts.len() == 6,
    ensures
        digests(parts) == digest(parts[0]) + digest(parts[1]) + digest(parts[2]) + digest(parts[3])
            + digest(parts[4]) + digest(parts[5]),
        digests(parts).len() == 192,
{
    reveal_with_fuel(digests, 7);
    let five = parts.drop_last();
    let four = five.drop_last();
    let three = four.drop_last();
    let two = three.drop_last();
    let one = two.drop_last();
    assert(one.drop_last() =~= Seq::<Seq<u8>>::empty());
    assert(digests(one) =~= digest(parts[0]));
}

/// A name has no more bytes than it was cut to.
proof fn lemma_symbol_is_short(symbol: Symbol, n: nat)
    ensures
        symbol.prefix(n).len() <= n,
    decreases n,
{
    if n > 0 {
        lemma_symbol_is_short(symbol, (n - 1) as nat);
    }
}

/// The hash of an entry that follows another: the digest of the other's hash
/// and the payload.
pub fn chain_hash(env: &Env, prev_hash: &Vec<u8>, payload: &Vec<u8>) -> (hash: Vec<u8>)
    requires
        prev_hash@.len() + payload@.len() <= u32::MAX,
    ensures
        hash@ == link(prev_hash@, payload@),
        hash@.len() == 32,
{
    let mut data = crate::table::copy_list(prev_hash);
    let mut rest = crate::table::copy_list(payload);
    data.append(&mut rest);
    host::sha256(env, &data)
}

/// The hash of the first entry.
pub fn first_chain_hash(env: &Env, payload: &Vec<u8>) -> (hash: Vec<u8>)
    requires
        32 + payload@.len() <= u32::MAX,
    ensures
        hash@ == link(chain_origin(), payload@),
        hash@.len() == 32,
{
    let mut origin: Vec<u8> = Vec::new();
    while origin.len() < 32
        invariant
            origin@.len() <= 32,
            forall|i: int| 0 <= i < origin@.len() ==> origin@[i] == 0,
        decreases 32 - origin@.len(),
    {
        origin.push(0);
    }
    assert(origin@ =~= chain_origin());
    chain_hash(env, &origin, payload)
}

/// The head of a chain follows from the entries alone: the first entry follows
/// the origin, and each further one the head before it.
pub proof fn the_head_follows_from_the_entries(payloads: Seq<Seq<u8>>, payload: Seq<u8>)
    ensures
        chain_head(seq![payload]) == link(chain_origin(), payload),
        chain_head(payloads.push(payload)) == link(chain_head(payloads), payload),
{
    assert(seq![payload].drop_last() =~= Seq::<Seq<u8>>::empty());
    assert(seq![payload].last() == payload);
    assert(chain_head(Seq::<Seq<u8>>::empty()) == chain_origin());
    assert(payloads.push(payload).drop_last() =~= payloads);
}

/// Whether the digest maps two different inputs to the same value.
pub open spec fn collides(x: Seq<u8>, y: Seq<u8>) -> bool {
    x != y && digest(x) == digest(y)
}

/// What is hashed for entry `k` of a log: the head of the chain before it,
/// and its payload.
pub open spec fn hashed(log: Seq<Seq<u8>>, k: int) -> Seq<u8> {
    chain_head(log.take(k)) + log[k]
}

/// The head of a chain is 32 bytes long.
proof fn lemma_head_len(payloads: Seq<Seq<u8>>)
    ensures
        chain_head(payloads).len() == 32,
{
}

/// Two logs with the same head end in the same entries, as many as the shorter
/// one has, unless what was hashed for one of those entries collides with what
/// was hashed for its counterpart. What the longer one has before them then
/// leads back to the origin.
pub proof fn the_head_pins_the_entries(short: Seq<Seq<u8>>, long: Seq<Seq<u8>>)
    requires
        short.len() <= long.len(),
        chain_head(short) == chain_head(long),
    ensures
        ({
            let more = long.len() - short.len();
            ||| short == long.skip(more) && chain_head(long.take(more)) == chain_origin()
            ||| exists|k: int|
                0 <= k < short.len() && collides(
                    #[trigger] hashed(short, k),
                    hashed(long, more + k),
                )
        }),
    decreases short.len(),
{
    let more = long.len() - short.len();
    if short.len() == 0 {
        assert(long.take(more) =~= long);
        assert(short =~= long.skip(more));
    } else {
        let n = short.len() - 1;
        let (less, rest) = (short.drop_last(), long.drop_last());
        assert(short.take(n) =~= less);
        assert(long.take(more + n) =~= rest);
        let x = hashed(short, n);
        let y = hashed(long, more + n);
        if x == y {
            lemma_head_len(less);
            lemma_head_len(rest);
            assert(chain_head(less) =~= x.take(32));
            assert(chain_head(rest) =~= y.take(32));
            assert(short.last() =~= x.skip(32));
            assert(long.last() =~= y.skip(32));
            the_head_pins_the_entries(less, rest);
            assert(rest.take(more) =~= long.take(more));
            if less == rest.skip(more) {
                assert(short =~= less.push(short.last()));
                assert(long.skip(more) =~= rest.skip(more).push(long.last()));
            }
            if exists|k: int|
                0 <= k < less.len() && collides(#[trigger] hashed(less, k), hashed(rest, more + k)) {
                let k = choose|k: int|
                    0 <= k < less.len() && collides(
                        #[trigger] hashed(less, k),
                        hashed(rest, more + k),
                    );
                assert(less.take(k) =~= short.take(k));
                assert(rest.take(more + k) =~= long.take(more + k));
                assert(collides(hashed(short, k), hashed(long, more + k)));
            }
        } else {
            assert(collides(hashed(short, n), hashed(long, more + n)));
        }
    }
}

/// Two logs of the same length with the same head are the same log, unless
/// what was hashed for some entry of the one collides with what was hashed for
/// that entry of the other.
pub proof fn tampering_needs_a_collision(a: Seq<Seq<u8>>, b: Seq<Seq<u8>>)
    requires
        a.len() == b.len(),
        chain_head(a) == chain_head(b),
    ensures
        a == b || exists|k: int|
            0 <= k < a.len() && collides(
                #[trigger] chain_head(a.take(k)) + a[k],
                chain_head(b.take(k)) + b[k],
            ),
{
    the_head_pins_the_entries(a, b);
    assert(b.skip(0) =~= b);
    if exists|k: int| 0 <= k < a.len() && collides(#[trigger] hashed(a, k), hashed(b, 0 + k)) {
        let k = choose|k: int|
            0 <= k < a.len() && collides(#[trigger] hashed(a, k), hashed(b, 0 + k));
        assert(collides(chain_head(a.take(k)) + a[k], chain_head(b.take(k)) + b[k]));
    }
}

/// The contents of an entry are pinned by its payload: entries with the same
/// digests have the same strkey, portfolio, outcome, detail and states, each
/// unless it collides with its counterpart.
pub proof fn the_contents_are_pinned(a: Seq<Seq<u8>>, b: Seq<Seq<u8>>)
    requires
        a.len() == b.len(),
        digests(a) == digests(b),
    ensures
        forall|i: int|
            0 <= i < a.len() ==> #[trigger] a[i] == #[trigger] b[i] || collides(a[i], b[i]),
    decreases a.len(),
{
    if a.len() > 0 {
        let n = a.len() - 1;
        let (less, rest) = (digests(a.drop_last()), digests(b.drop_last()));
        let all = digests(a);
        assert(all == less + digest(a.last()));
        assert(all == rest + digest(b.last()));
        assert(less =~= all.take(all.len() - 32));
        assert(rest =~= all.take(all.len() - 32));
        assert(digest(a.last()) =~= all.skip(all.len() - 32));
        assert(digest(b.last()) =~= all.skip(all.len() - 32));
        the_contents_are_pinned(a.drop_last(), b.drop_last());
        assert forall|i: int| 0 <= i < a.len() implies #[trigger] a[i] == #[trigger] b[i]
            || collides(a[i], b[i]) by {
            if i < n {
                assert(a.drop_last()[i] == a[i] && b.drop_last()[i] == b[i]);
            }
        }
    }
}

/// The number of an entry, its time, its type and its permissions can be read
/// off its payload.
pub proof fn the_header_is_pinned(
    a: (u64, u64, u32, u32),
    b: (u64, u64, u32, u32),
    rest_a: Seq<u8>,
    rest_b: Seq<u8>,
)
    requires
        header(a.0, a.1, a.2, a.3) + rest_a == header(b.0, b.1, b.2, b.3) + rest_b,
    ensures
        a == b,
        rest_a == rest_b,
{
    let x = header(a.0, a.1, a.2, a.3) + rest_a;
    let y = header(b.0, b.1, b.2, b.3) + rest_b;
    reveal_with_fuel(values::pow256, 9);
    values::lemma_big_endian_len(a.0 as nat, 8);
    values::lemma_big_endian_len(b.0 as nat, 8);
    values::lemma_big_endian_len(a.1 as nat, 8);
    values::lemma_big_endian_len(b.1 as nat, 8);
    values::lemma_big_endian_len(a.2 as nat, 4);
    values::lemma_big_endian_len(b.2 as nat, 4);
    values::lemma_big_endian_len(a.3 as nat, 4);
    values::lemma_big_endian_len(b.3 as nat, 4);
    assert(x.subrange(0, 8) =~= values::big_endian(a.0 as nat, 8));
    assert(y.subrange(0, 8) =~= values::big_endian(b.0 as nat, 8));
    assert(x.subrange(8, 16) =~= values::big_endian(a.1 as nat, 8));
    assert(y.subrange(8, 16) =~= values::big_endian(b.1 as nat, 8));
    assert(x.subrange(16, 20) =~= values::big_endian(a.2 as nat, 4));
    assert(y.subrange(16, 20) =~= values::big_endian(b.2 as nat, 4));
    assert(x.subrange(20, 24) =~= values::big_endian(a.3 as nat, 4));
    assert(y.subrange(20, 24) =~= values::big_endian(b.3 as nat, 4));
    assert(x.skip(24) =~= rest_a);
    assert(y.skip(24) =~= rest_b);
    values::bytes_tell_numbers_apart(a.0 as nat, b.0 as nat, 8);
    values::bytes_tell_numbers_apart(a.1 as nat, b.1 as nat, 8);
    values::bytes_tell_numbers_apart(a.2 as nat, b.2 as nat, 4);
    values::bytes_tell_numbers_apart(a.3 as nat, b.3 as nat, 4);
}

/// An entry is pinned by its payload: entries with the same payload have the
/// same numbers, and the same strkey, portfolio, outcome, detail and states as
/// bytes, each of these unless it collides with its counterpart. Strkeys and
/// details with the same bytes are the same texts.
pub proof fn the_entry_is_pinned(
    a: (u64, u64, u32, u32),
    b: (u64, u64, u32, u32),
    actors: (Address, Address),
    portfolios: (Symbol, Symbol),
    outcomes: (Symbol, Symbol),
    details: (Seq<char>, Seq<char>),
    befores: (Seq<StateField>, Seq<StateField>),
    afters: (Seq<StateField>, Seq<StateField>),
)
    requires
        header(a.0, a.1, a.2, a.3) + digests(
            contents(actors.0, portfolios.0, outcomes.0, details.0, befores.0, afters.0),
        ) == header(b.0, b.1, b.2, b.3) + digests(
            contents(actors.1, portfolios.1, outcomes.1, details.1, befores.1, afters.1),
        ),
    ensures
        a == b,
        ({
            let x = host::strkey(actors.0.xdr());
            let y = host::strkey(actors.1.xdr());
            x == y || collides(text_bytes(x), text_bytes(y))
        }),
        portfolios.0.bytes() == portfolios.1.bytes() || collides(
            portfolios.0.bytes(),
            portfolios.1.bytes(),
        ),
        outcomes.0.bytes() == outcomes.1.bytes() || collides(
            outcomes.0.bytes(),
            outcomes.1.bytes(),
        ),
        details.0 == details.1 || collides(text_bytes(details.0), text_bytes(details.1)),
        state_bytes(befores.0) == state_bytes(befores.1) || collides(
            state_bytes(befores.0),
            state_bytes(befores.1),
        ),
        state_bytes(afters.0) == state_bytes(afters.1) || collides(
            state_bytes(afters.0),
            state_bytes(afters.1),
        ),
{
    let x = contents(actors.0, portfolios.0, outcomes.0, details.0, befores.0, afters.0);
    let y = contents(actors.1, portfolios.1, outcomes.1, details.1, befores.1, afters.1);
    the_header_is_pinned(a, b, digests(x), digests(y));
    the_contents_are_pinned(x, y);
    assert(forall|i: int| 0 <= i < 6 ==> x[i] == #[trigger] y[i] || collides(x[i], y[i]));
    assert(y[0] == text_bytes(host::strkey(actors.1.xdr())));
    assert(y[1] == portfolios.1.bytes());
    assert(y[2] == outcomes.1.bytes());
    assert(y[3] == text_bytes(details.1));
    assert(y[4] == state_bytes(befores.1));
    assert(y[5] == state_bytes(afters.1));
    utf8::encode_utf8_decode_utf8(host::strkey(actors.0.xdr()));
    utf8::encode_utf8_decode_utf8(host::strkey(actors.1.xdr()));
    utf8::encode_utf8_decode_utf8(details.0);
    utf8::encode_utf8_decode_utf8(details.1);
}

/// A state is written as the count of its numbers in four bytes, and after it
/// each name with its value in sixteen, in order.
pub proof fn states_are_written_in_order(fields: Seq<StateField>, field: StateField)
    ensures
        state_bytes(fields).take(4) == values::big_endian(fields.len(), 4),
        state_bytes(fields.push(field)).skip(4) == state_bytes(fields).skip(4) + field.key.bytes()
            + values::big_endian(values::twos_complement(field.value), 16),
        state_bytes(Seq::empty()).len() == 4,
{
    let longer = fields.push(field);
    values::lemma_big_endian_len(fields.len(), 4);
    values::lemma_big_endian_len(longer.len(), 4);
    values::lemma_big_endian_len(0, 4);
    assert(longer.drop_last() =~= fields);
    assert(longer.last() == field);
    assert(state_bytes(fields).take(4) =~= values::big_endian(fields.len(), 4));
    assert(state_bytes(fields).skip(4) =~= fields_bytes(fields));
    assert(state_bytes(longer).skip(4) =~= fields_bytes(longer));
    assert(fields_bytes(longer) =~= fields_bytes(fields) + field.key.bytes() + values::big_endian(
        values::twos_complement(field.value),
        16,
    ));
}

} // verus!
