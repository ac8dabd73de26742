//! The on-disk format: one UTF-8 JSON object `{"accounts":{...}}` mapping
//! each stringified account id to the account record.  Usernames are stored
//! as JSON strings with `\"`, `\\` and `\u00XX` escapes; the raw `salt` and
//! `passhash` bytes are stored base64-encoded, so the encoding is loss-free.
//!
//! The writer is verified against `spec_serialize`, the byte-exact
//! description of the format.  The reader accepts exactly the writer's
//! output: whatever it returns serializes back to its input byte for byte,
//! and it is proven to succeed on every serialized account list.

use vstd::prelude::*;

use crate::account::{accounts_wf, Account};
use crate::error::{PPHError, PPHErrorKind};

verus! {

/// The decimal digits of `n` (for `n >= 0`), most significant first.
pub open spec fn ser_dec(n: int) -> Seq<u8>
    decreases n,
{
    if n < 10 {
        seq![(48 + n) as u8]
    } else {
        ser_dec(n / 10) + seq![(48 + n % 10) as u8]
    }
}

/// Lower-case hex digit for `v` in `0..16`.
pub open spec fn hex_digit(v: int) -> u8 {
    if v < 10 {
        (48 + v) as u8
    } else {
        (87 + v) as u8
    }
}

/// How one byte appears inside a JSON string: quote and backslash are
/// escaped, control bytes become `\u00XX`, everything else stands as is.
/// UTF-8 continuation bytes are above the control range, so escaping at the
/// byte level leaves multi-byte characters intact.
pub open spec fn esc_byte(b: u8) -> Seq<u8> {
    if b == 34 {
        seq![92u8, 34]
    } else if b == 92 {
        seq![92u8, 92]
    } else if b < 32 {
        seq![92u8, 117, 48, 48, hex_digit(b as int / 16), hex_digit(b as int % 16)]
    } else {
        seq![b]
    }
}

/// The JSON-string escaping of a byte sequence.
pub open spec fn json_escape(bs: Seq<u8>) -> Seq<u8>
    decreases bs.len(),
{
    if bs.len() == 0 {
        Seq::empty()
    } else {
        esc_byte(bs[0]) + json_escape(bs.drop_first())
    }
}

/// The base64 alphabet: `A-Z`, `a-z`, `0-9`, `+`, `/`.
pub open spec fn b64_char(v: int) -> u8 {
    if v < 26 {
        (65 + v) as u8
    } else if v < 52 {
        (97 + (v - 26)) as u8
    } else if v < 62 {
        (48 + (v - 52)) as u8
    } else if v == 62 {
        43
    } else {
        47
    }
}

/// Standard base64 with `=` padding, three bytes to four characters.
pub open spec fn b64_encode(bs: Seq<u8>) -> Seq<u8>
    decreases bs.len(),
{
    if bs.len() == 0 {
        Seq::empty()
    } else if bs.len() == 1 {
        let b0 = bs[0] as int;
        seq![b64_char(b0 / 4), b64_char(b0 % 4 * 16), 61, 61]
    } else if bs.len() == 2 {
        let b0 = bs[0] as int;
        let b1 = bs[1] as int;
        seq![b64_char(b0 / 4), b64_char(b0 % 4 * 16 + b1 / 16), b64_char(b1 % 16 * 4), 61]
    } else {
        let b0 = bs[0] as int;
        let b1 = bs[1] as int;
        let b2 = bs[2] as int;
        seq![
            b64_char(b0 / 4),
            b64_char(b0 % 4 * 16 + b1 / 16),
            b64_char(b1 % 16 * 4 + b2 / 64),
            b64_char(b2 % 64),
        ] + b64_encode(bs.skip(3))
    }
}

/// The bytes of the text `{"accounts":{`.
pub open spec fn lit_header() -> Seq<u8> {
    seq![123u8, 34, 97, 99, 99, 111, 117, 110, 116, 115, 34, 58, 123]
}

/// The bytes of the text `":{"id":`.
pub open spec fn lit_key_open() -> Seq<u8> {
    seq![34u8, 58, 123, 34, 105, 100, 34, 58]
}

/// The bytes of the text `,"username":"`.
pub open spec fn lit_username_key() -> Seq<u8> {
    seq![44u8, 34, 117, 115, 101, 114, 110, 97, 109, 101, 34, 58, 34]
}

/// The bytes of the text `","salt":"`.
pub open spec fn lit_salt_key() -> Seq<u8> {
    seq![34u8, 44, 34, 115, 97, 108, 116, 34, 58, 34]
}

/// The bytes of the text `","sharenumber":`.
pub open spec fn lit_sharenumber_key() -> Seq<u8> {
    seq![34u8, 44, 34, 115, 104, 97, 114, 101, 110, 117, 109, 98, 101, 114, 34, 58]
}

/// The bytes of the text `,"passhash":"`.
pub open spec fn lit_passhash_key() -> Seq<u8> {
    seq![44u8, 34, 112, 97, 115, 115, 104, 97, 115, 104, 34, 58, 34]
}

/// The bytes of the text `"}`.
pub open spec fn lit_entry_close() -> Seq<u8> {
    seq![34u8, 125]
}

/// The bytes of the text `}}`.
pub open spec fn lit_footer() -> Seq<u8> {
    seq![125u8, 125]
}

/// The serialized entry for one account, without its separating comma:
/// `"<id>":{"id":<id>,"username":"...","salt":"...","sharenumber":<n>,"passhash":"..."}`.
pub open spec fn ser_entry(a: Account) -> Seq<u8> {
    seq![34u8] + ser_dec(a.id as int) + lit_key_open() + ser_dec(a.id as int)
        + lit_username_key() + json_escape(vstd::utf8::encode_utf8(a.username@))
        + lit_salt_key() + b64_encode(a.salt@) + lit_sharenumber_key()
        + ser_dec(a.sharenumber as int) + lit_passhash_key() + b64_encode(a.passhash@)
        + lit_entry_close()
}

/// The first `i` account entries, comma-separated.
pub open spec fn ser_entries(accs: Seq<Account>, i: int) -> Seq<u8>
    decreases i,
{
    if i <= 0 {
        Seq::empty()
    } else if i == 1 {
        ser_entry(accs[0])
    } else {
        ser_entries(accs, i - 1) + seq![44u8] + ser_entry(accs[i - 1])
    }
}

/// The whole password file for an account list: the byte-exact statement of
/// the on-disk format.
pub open spec fn spec_serialize(accs: Seq<Account>) -> Seq<u8> {
    lit_header() + ser_entries(accs, accs.len() as int) + lit_footer()
}

/// Appends the text `{"accounts":{`.
fn push_lit_header(out: &mut Vec<u8>)
    ensures
        final(out)@ == old(out)@ + lit_header(),
{
    out.push(123);
    out.push(34);
    out.push(97);
    out.push(99);
    out.push(99);
    out.push(111);
    out.push(117);
    out.push(110);
    out.push(116);
    out.push(115);
    out.push(34);
    out.push(58);
    out.push(123);
    proof {
        assert(out@ =~= old(out)@ + lit_header());
    }
}

/// Appends the text `":{"id":`.
fn push_lit_key_open(out: &mut Vec<u8>)
    ensures
        final(out)@ == old(out)@ + lit_key_open(),
{
    out.push(34);
    out.push(58);
    out.push(123);
    out.push(34);
    out.push(105);
    out.push(100);
    out.push(34);
    out.push(58);
    proof {
        assert(out@ =~= old(out)@ + lit_key_open());
    }
}

/// Appends the text `,"username":"`.
fn push_lit_username_key(out: &mut Vec<u8>)
    ensures
        final(out)@ == old(out)@ + lit_username_key(),
{
    out.push(44);
    out.push(34);
    out.push(117);
    out.push(115);
    out.push(101);
    out.push(114);
    out.push(110);
    out.push(97);
    out.push(109);
    out.push(101);
    out.push(34);
    out.push(58);
    out.push(34);
    proof {
        assert(out@ =~= old(out)@ + lit_username_key());
    }
}

/// Appends the text `","salt":"`.
fn push_lit_salt_key(out: &mut Vec<u8>)
    ensures
        final(out)@ == old(out)@ + lit_salt_key(),
{
    out.push(34);
    out.push(44);
    out.push(34);
    out.push(115);
    out.push(97);
    out.push(108);
    out.push(116);
    out.push(34);
    out.push(58);
    out.push(34);
    proof {
        assert(out@ =~= old(out)@ + lit_salt_key());
    }
}

/// Appends the text `","sharenumber":`.
fn push_lit_sharenumber_key(out: &mut Vec<u8>)
    ensures
        final(out)@ == old(out)@ + lit_sharenumber_key(),
{
    out.push(34);
    out.push(44);
    out.push(34);
    out.push(115);
    out.push(104);
    out.push(97);
    out.push(114);
    out.push(101);
    out.push(110);
    out.push(117);
    out.push(109);
    out.push(98);
    out.push(101);
    out.push(114);
    out.push(34);
    out.push(58);
    proof {
        assert(out@ =~= old(out)@ + lit_sharenumber_key());
    }
}

/// Appends the text `,"passhash":"`.
fn push_lit_passhash_key(out: &mut Vec<u8>)
    ensures
        final(out)@ == old(out)@ + lit_passhash_key(),
{
    out.push(44);
    out.push(34);
    out.push(112);
    out.push(97);
    out.push(115);
    out.push(115);
    out.push(104);
    out.push(97);
    out.push(115);
    out.push(104);
    out.push(34);
    out.push(58);
    out.push(34);
    proof {
        assert(out@ =~= old(out)@ + lit_passhash_key());
    }
}

/// Appends the text `"}`.
fn push_lit_entry_close(out: &mut Vec<u8>)
    ensures
        final(out)@ == old(out)@ + lit_entry_close(),
{
    out.push(34);
    out.push(125);
    proof {
        assert(out@ =~= old(out)@ + lit_entry_close());
    }
}

/// Appends the text `}}`.
fn push_lit_footer(out: &mut Vec<u8>)
    ensures
        final(out)@ == old(out)@ + lit_footer(),
{
    out.push(125);
    out.push(125);
    proof {
        assert(out@ =~= old(out)@ + lit_footer());
    }
}

/// Appends the decimal digits of `n`.
fn push_dec(out: &mut Vec<u8>, n: u64)
    ensures
        final(out)@ == old(out)@ + ser_dec(n as int),
    decreases n,
{
    if n < 10 {
        out.push(48 + (n as u8));
        proof {
            assert(out@ =~= old(out)@ + ser_dec(n as int));
        }
    } else {
        push_dec(out, n / 10);
        out.push(48 + ((n % 10) as u8));
        proof {
            assert(out@ =~= old(out)@ + ser_dec(n as int));
        }
    }
}

/// Lower-case hex digit.
fn hex_digit_x(v: u8) -> (r: u8)
    requires
        v < 16,
    ensures
        r == hex_digit(v as int),
{
    if v < 10 {
        48 + v
    } else {
        87 + v
    }
}

/// Appends the JSON-string escaping of `bs`.
fn push_escaped(out: &mut Vec<u8>, bs: &Vec<u8>)
    ensures
        final(out)@ == old(out)@ + json_escape(bs@),
{
    let mut i: usize = 0;
    proof {
        assert(bs@.skip(0) =~= bs@);
    }
    while i < bs.len()
        invariant
            i <= bs@.len(),
            out@ + json_escape(bs@.skip(i as int)) == old(out)@ + json_escape(bs@),
        decreases bs@.len() - i,
    {
        let b = bs[i];
        let ghost prev = out@;
        if b == 34 {
            out.push(92);
            out.push(34);
        } else if b == 92 {
            out.push(92);
            out.push(92);
        } else if b < 32 {
            out.push(92);
            out.push(117);
            out.push(48);
            out.push(48);
            out.push(hex_digit_x(b / 16));
            out.push(hex_digit_x(b % 16));
        } else {
            out.push(b);
        }
        proof {
            assert(out@ =~= prev + esc_byte(b));
            assert(bs@.skip(i as int).drop_first() =~= bs@.skip(i + 1));
            assert(json_escape(bs@.skip(i as int)) == esc_byte(b) + json_escape(bs@.skip(i + 1)));
            assert(out@ + json_escape(bs@.skip(i + 1)) =~= prev + json_escape(bs@.skip(i as int)));
        }
        i = i + 1;
    }
    proof {
        assert(bs@.skip(bs@.len() as int) =~= Seq::<u8>::empty());
        assert(out@ =~= out@ + json_escape(bs@.skip(bs@.len() as int)));
    }
}

/// The base64 alphabet.
fn b64_char_x(v: u8) -> (r: u8)
    requires
        v < 64,
    ensures
        r == b64_char(v as int),
{
    if v < 26 {
        65 + v
    } else if v < 52 {
        97 + (v - 26)
    } else if v < 62 {
        48 + (v - 52)
    } else if v == 62 {
        43
    } else {
        47
    }
}

/// Appends the base64 encoding of `bs`.
fn push_b64(out: &mut Vec<u8>, bs: &Vec<u8>)
    ensures
        final(out)@ == old(out)@ + b64_encode(bs@),
{
    let mut i: usize = 0;
    proof {
        assert(bs@.skip(0) =~= bs@);
    }
    while bs.len() - i >= 3
        invariant
            i <= bs@.len(),
            out@ + b64_encode(bs@.skip(i as int)) == old(out)@ + b64_encode(bs@),
        decreases bs@.len() - i,
    {
        let b0 = bs[i];
        let b1 = bs[i + 1];
        let b2 = bs[i + 2];
        let ghost prev = out@;
        out.push(b64_char_x(b0 / 4));
        out.push(b64_char_x(b0 % 4 * 16 + b1 / 16));
        out.push(b64_char_x(b1 % 16 * 4 + b2 / 64));
        out.push(b64_char_x(b2 % 64));
        proof {
            assert(bs@.skip(i as int).skip(3) =~= bs@.skip(i + 3));
            assert(out@ =~= prev + seq![
                b64_char(b0 as int / 4),
                b64_char(b0 as int % 4 * 16 + b1 as int / 16),
                b64_char(b1 as int % 16 * 4 + b2 as int / 64),
                b64_char(b2 as int % 64),
            ]);
            assert(out@ + b64_encode(bs@.skip(i + 3)) =~= prev + b64_encode(bs@.skip(i as int)));
        }
        i = i + 3;
    }
    let ghost prev = out@;
    if bs.len() - i == 1 {
        let b0 = bs[i];
        out.push(b64_char_x(b0 / 4));
        out.push(b64_char_x(b0 % 4 * 16));
        out.push(61);
        out.push(61);
        proof {
            assert(out@ =~= prev + b64_encode(bs@.skip(i as int)));
        }
    } else if bs.len() - i == 2 {
        let b0 = bs[i];
        let b1 = bs[i + 1];
        out.push(b64_char_x(b0 / 4));
        out.push(b64_char_x(b0 % 4 * 16 + b1 / 16));
        out.push(b64_char_x(b1 % 16 * 4));
        out.push(61);
        proof {
            assert(out@ =~= prev + b64_encode(bs@.skip(i as int)));
        }
    } else {
        proof {
            assert(bs@.skip(i as int) =~= Seq::<u8>::empty());
            assert(out@ =~= prev + b64_encode(bs@.skip(i as int)));
        }
    }
}

/// The password file for `accounts`, exactly `spec_serialize` of it.
#[verifier::rlimit(100)]
pub(crate) fn serialize_accounts(accounts: &Vec<Account>) -> (r: Vec<u8>)
    requires
        accounts_wf(accounts@),
    ensures
        r@ == spec_serialize(accounts@),
{
    let mut out: Vec<u8> = Vec::new();
    push_lit_header(&mut out);
    let mut i: usize = 0;
    while i < accounts.len()
        invariant
            i <= accounts@.len(),
            accounts_wf(accounts@),
            out@ == lit_header() + ser_entries(accounts@, i as int),
        decreases accounts@.len() - i,
    {
        let ghost prev = out@;
        if i > 0 {
            out.push(44);
        }
        let ghost base = out@;
        let a = &accounts[i];
        proof {
            assert(accounts@[i as int].id == i + 1);
            if i > 0 {
                assert(base =~= lit_header() + (ser_entries(accounts@, i as int) + seq![44u8]));
            }
        }
        out.push(34);
        push_dec(&mut out, a.id as u64);
        push_lit_key_open(&mut out);
        push_dec(&mut out, a.id as u64);
        push_lit_username_key(&mut out);
        let ub = a.username.as_str().as_bytes_vec();
        push_escaped(&mut out, &ub);
        push_lit_salt_key(&mut out);
        push_b64(&mut out, &a.salt);
        push_lit_sharenumber_key(&mut out);
        push_dec(&mut out, a.sharenumber as u64);
        push_lit_passhash_key(&mut out);
        push_b64(&mut out, &a.passhash);
        push_lit_entry_close(&mut out);
        proof {
            let a_i = accounts@[i as int];
            assert(out@ =~= base + ser_entry(a_i));
            if i == 0 {
                assert(out@ =~= lit_header() + ser_entries(accounts@, 1));
            } else {
                assert(ser_entries(accounts@, i + 1) =~= (ser_entries(accounts@, i as int)
                    + seq![44u8]) + ser_entry(a_i));
                assert(out@ =~= lit_header() + ser_entries(accounts@, i + 1));
            }
        }
        i = i + 1;
    }
    push_lit_footer(&mut out);
    proof {
        assert(out@ =~= spec_serialize(accounts@));
    }
    out
}

/// Two accounts that serialize identically: equal ids, coordinates and
/// byte contents.
pub open spec fn acc_matches(x: Account, y: Account) -> bool {
    &&& x.id == y.id
    &&& x.username@ == y.username@
    &&& x.salt@ == y.salt@
    &&& x.sharenumber == y.sharenumber
    &&& x.passhash@ == y.passhash@
}

/// The serialized text from the start of entry `i` to the end of the file:
/// the entry, then either a separating comma and the rest or the footer.
pub open spec fn rem_entries(accs: Seq<Account>, i: int) -> Seq<u8>
    decreases accs.len() - i,
{
    if i < 0 || i >= accs.len() {
        lit_footer()
    } else if i + 1 == accs.len() {
        ser_entry(accs[i]) + lit_footer()
    } else {
        ser_entry(accs[i]) + seq![44u8] + rem_entries(accs, i + 1)
    }
}

/// The whole serialization splits at any entry boundary: what stands before
/// entry `i`, then the remainder.
proof fn lemma_rem_entries(accs: Seq<Account>, i: int)
    requires
        0 <= i < accs.len(),
    ensures
        ser_entries(accs, accs.len() as int) + lit_footer() == ser_entries(accs, i) + (if i > 0 {
            seq![44u8]
        } else {
            Seq::<u8>::empty()
        }) + rem_entries(accs, i),
    decreases accs.len() - i,
{
    let n = accs.len() as int;
    if i + 1 == n {
        assert(ser_entries(accs, n) + lit_footer() =~= ser_entries(accs, i) + (if i > 0 {
            seq![44u8]
        } else {
            Seq::<u8>::empty()
        }) + rem_entries(accs, i));
    } else {
        lemma_rem_entries(accs, i + 1);
        assert(ser_entries(accs, i + 1) == if i == 0 {
            ser_entries(accs, i) + ser_entry(accs[i])
        } else {
            ser_entries(accs, i) + seq![44u8] + ser_entry(accs[i])
        }) by {
            if i == 0 {
                assert(ser_entries(accs, 1) == ser_entry(accs[0]));
                assert(ser_entries(accs, 0) =~= Seq::<u8>::empty());
                assert(ser_entries(accs, 0) + ser_entry(accs[0]) =~= ser_entry(accs[0]));
            }
        }
        assert(ser_entries(accs, i) + (if i > 0 {
            seq![44u8]
        } else {
            Seq::<u8>::empty()
        }) + rem_entries(accs, i) =~= ser_entries(accs, i + 1) + seq![44u8] + rem_entries(
            accs,
            i + 1,
        ));
    }
}

/// A known suffix shows itself as a subrange: when the bytes from `p` on
/// read `a` then `b`, the bytes from `p` to `p + |a|` are `a`.
proof fn lemma_skip_prefix(bytes: Seq<u8>, p: int, a: Seq<u8>, b: Seq<u8>)
    requires
        0 <= p <= bytes.len(),
        bytes.skip(p) == a + b,
    ensures
        p + a.len() <= bytes.len(),
        bytes.subrange(p, p + a.len()) == a,
{
    assert(bytes.skip(p).len() == bytes.len() - p);
    assert(bytes.subrange(p, p + a.len()) =~= a) by {
        assert forall|k: int| 0 <= k < a.len() implies bytes.subrange(p, p + a.len())[k]
            == a[k] by {
            assert(bytes.subrange(p, p + a.len())[k] == bytes[p + k]);
            assert(bytes.skip(p)[k] == bytes[p + k]);
            assert((a + b)[k] == a[k]);
        }
    }
}

/// Entries of matching accounts serialize identically, and so do whole
/// account lists.
proof fn lemma_serialize_congruent(xs: Seq<Account>, ys: Seq<Account>, i: int)
    requires
        xs.len() == ys.len(),
        forall|k: int| 0 <= k < xs.len() ==> acc_matches(#[trigger] xs[k], ys[k]),
        0 <= i <= xs.len(),
    ensures
        ser_entries(xs, i) == ser_entries(ys, i),
    decreases i,
{
    if i > 0 {
        lemma_serialize_congruent(xs, ys, i - 1);
        assert(acc_matches(xs[i - 1], ys[i - 1]));
        assert(ser_entry(xs[i - 1]) == ser_entry(ys[i - 1]));
    }
}

/// Byte-wise equality of two vectors.
fn bytes_eq(a: &Vec<u8>, b: &Vec<u8>) -> (r: bool)
    ensures
        r == (a@ == b@),
{
    if a.len() != b.len() {
        proof {
            assert(a@ != b@) by {
                if a@ == b@ {
                    assert(a@.len() == b@.len());
                    assert(false);
                }
            }
        }
        return false;
    }
    let mut i: usize = 0;
    while i < a.len()
        invariant
            a@.len() == b@.len(),
            i <= a@.len(),
            forall|k: int| 0 <= k < i ==> a@[k] == b@[k],
        decreases a@.len() - i,
    {
        if a[i] != b[i] {
            proof {
                assert(a@ != b@) by {
                    if a@ == b@ {
                        assert(a@[i as int] == b@[i as int]);
                        assert(false);
                    }
                }
            }
            return false;
        }
        i = i + 1;
    }
    proof {
        assert(a@ =~= b@);
    }
    true
}

/// Relies on `String::from_utf8`: it succeeds exactly on valid UTF-8, and
/// the returned string's UTF-8 encoding is the input bytes.
#[verifier::external_body]
fn string_from_utf8(bytes: Vec<u8>) -> (r: Option<String>)
    ensures
        r matches Some(s) ==> vstd::utf8::encode_utf8(s@) == bytes@,
        vstd::utf8::valid_utf8(bytes@) ==> r is Some,
{
    String::from_utf8(bytes).ok()
}

/// Every serialized entry opens with a quote.
proof fn lemma_ser_entry_first(a: Account)
    ensures
        ser_entry(a).len() > 0,
        ser_entry(a)[0] == 34,
{
    assert(ser_entry(a)[0] == (seq![34u8] + ser_dec(a.id as int))[0]);
}

/// The value of a base64 alphabet byte, or 255 for any other byte.
pub open spec fn b64_val_spec(c: u8) -> u8 {
    if 65 <= c <= 90 {
        (c - 65) as u8
    } else if 97 <= c <= 122 {
        (c - 97 + 26) as u8
    } else if 48 <= c <= 57 {
        (c - 48 + 52) as u8
    } else if c == 43 {
        62
    } else if c == 47 {
        63
    } else {
        255
    }
}

/// The value of a base64 alphabet byte, or 255 for any other byte.
fn b64_val(c: u8) -> (r: u8)
    ensures
        r == b64_val_spec(c),
        r == 255 || r < 64,
{
    if 65 <= c && c <= 90 {
        c - 65
    } else if 97 <= c && c <= 122 {
        c - 97 + 26
    } else if 48 <= c && c <= 57 {
        c - 48 + 52
    } else if c == 43 {
        62
    } else if c == 47 {
        63
    } else {
        255
    }
}

/// Alphabet bytes are neither quote nor padding, and reading one back gives
/// the encoded value.
proof fn lemma_b64_char_props(v: int)
    requires
        0 <= v < 64,
    ensures
        b64_char(v) != 34,
        b64_char(v) != 61,
        b64_val_spec(b64_char(v)) == v,
{
}

/// The four bytes of one base64 group decode back to the three bytes that
/// made them.
proof fn lemma_b64_group_decode(b0: u8, b1: u8, b2: u8)
    ensures
        (b0 as int / 4) * 4 + (b0 as int % 4 * 16 + b1 as int / 16) / 16 == b0,
        ((b0 as int % 4 * 16 + b1 as int / 16) % 16) * 16 + (b1 as int % 16 * 4 + b2 as int / 64)
            / 4 == b1,
        ((b1 as int % 16 * 4 + b2 as int / 64) % 4) * 64 + b2 as int % 64 == b2,
        0 <= b0 as int % 4 * 16 + b1 as int / 16 < 64,
        0 <= b1 as int % 16 * 4 + b2 as int / 64 < 64,
{
    assert((b0 as int / 4) * 4 + (b0 as int % 4 * 16 + b1 as int / 16) / 16 == b0) by (nonlinear_arith);
    assert(((b0 as int % 4 * 16 + b1 as int / 16) % 16) * 16 + (b1 as int % 16 * 4 + b2 as int
        / 64) / 4 == b1) by (nonlinear_arith);
    assert(((b1 as int % 16 * 4 + b2 as int / 64) % 4) * 64 + b2 as int % 64 == b2) by (nonlinear_arith);
    assert(0 <= b0 as int % 4 * 16 + b1 as int / 16 < 64) by (nonlinear_arith);
    assert(0 <= b1 as int % 16 * 4 + b2 as int / 64 < 64) by (nonlinear_arith);
}

/// The length of a base64 encoding: four characters per started group of
/// three bytes.
proof fn lemma_b64_encode_len(data: Seq<u8>)
    ensures
        data.len() == 0 ==> b64_encode(data).len() == 0,
        data.len() > 0 ==> b64_encode(data).len() >= 4,
        b64_encode(data).len() % 4 == 0,
        b64_encode(data).len() <= 2 * data.len() + 4,
    decreases data.len(),
{
    if data.len() >= 3 {
        lemma_b64_encode_len(data.skip(3));
        vstd::arithmetic::div_mod::lemma_mod_add_multiples_vanish(
            b64_encode(data.skip(3)).len() as int,
            4,
        );
    }
}

/// No byte of a base64 encoding is a quote.
proof fn lemma_b64_no_quote(data: Seq<u8>)
    ensures
        forall|k: int| 0 <= k < b64_encode(data).len() ==> #[trigger] b64_encode(data)[k] != 34,
    decreases data.len(),
{
    if data.len() == 0 {
    } else if data.len() == 1 {
        let b0 = data[0] as int;
        lemma_b64_char_props(b0 / 4);
        lemma_b64_char_props(b0 % 4 * 16);
    } else if data.len() == 2 {
        let b0 = data[0] as int;
        let b1 = data[1] as int;
        lemma_b64_group_decode(data[0], data[1], 0);
        lemma_b64_char_props(b0 / 4);
        lemma_b64_char_props(b0 % 4 * 16 + b1 / 16);
        lemma_b64_char_props(b1 % 16 * 4);
    } else {
        let b0 = data[0] as int;
        let b1 = data[1] as int;
        let b2 = data[2] as int;
        lemma_b64_group_decode(data[0], data[1], data[2]);
        lemma_b64_char_props(b0 / 4);
        lemma_b64_char_props(b0 % 4 * 16 + b1 / 16);
        lemma_b64_char_props(b1 % 16 * 4 + b2 / 64);
        lemma_b64_char_props(b2 % 64);
        lemma_b64_no_quote(data.skip(3));
        assert forall|k: int|
            0 <= k < b64_encode(data).len() implies #[trigger] b64_encode(data)[k] != 34 by {
            if k >= 4 {
                assert(b64_encode(data)[k] == b64_encode(data.skip(3))[k - 4]);
            }
        }
    }
}

/// The value of a lower-case hex digit byte, or 255 for any other byte.
pub open spec fn hex_val_spec(c: u8) -> u8 {
    if 48 <= c <= 57 {
        (c - 48) as u8
    } else if 97 <= c <= 102 {
        (c - 97 + 10) as u8
    } else {
        255
    }
}

/// The value of a lower-case hex digit byte, or 255 for any other byte.
fn hex_val(c: u8) -> (r: u8)
    ensures
        r == hex_val_spec(c),
        r == 255 || r < 16,
{
    if 48 <= c && c <= 57 {
        c - 48
    } else if 97 <= c && c <= 102 {
        c - 97 + 10
    } else {
        255
    }
}

/// Reading a hex digit back gives the encoded value.
proof fn lemma_hex_digit_props(v: int)
    requires
        0 <= v < 16,
    ensures
        hex_val_spec(hex_digit(v)) == v,
{
}

/// Splitting a known suffix: when the bytes from `p` on read `a` then `b`,
/// the bytes from `p + |a|` on read `b`.
proof fn lemma_skip_peel(bytes: Seq<u8>, p: int, a: Seq<u8>, b: Seq<u8>)
    requires
        0 <= p <= bytes.len(),
        bytes.skip(p) == a + b,
    ensures
        p + a.len() <= bytes.len(),
        bytes.skip(p + a.len()) == b,
{
    assert(bytes.skip(p).len() == bytes.len() - p);
    assert(bytes.skip(p + a.len()) =~= b) by {
        assert forall|k: int| 0 <= k < b.len() implies bytes.skip(p + a.len())[k] == b[k] by {
            assert(bytes.skip(p + a.len())[k] == bytes[p + a.len() + k]);
            assert(bytes.skip(p)[a.len() + k] == bytes[p + a.len() + k]);
            assert((a + b)[a.len() + k] == b[k]);
        }
    }
}

/// Position after `lit` when the bytes at `pos` spell it out, exactly then.
fn eat_lit(bytes: &Vec<u8>, pos: usize, lit: &Vec<u8>) -> (r: Option<usize>)
    ensures
        r matches Some(p) ==> p == pos + lit@.len() && p <= bytes@.len(),
        pos + lit@.len() <= bytes@.len() && bytes@.subrange(pos as int, pos + lit@.len())
            == lit@ ==> r is Some,
{
    if pos > bytes.len() || lit.len() > bytes.len() - pos {
        return None;
    }
    let n = bytes.len();
    let mut j: usize = 0;
    while j < lit.len()
        invariant
            j <= lit@.len(),
            n == bytes@.len(),
            pos + lit@.len() <= n,
        decreases lit@.len() - j,
    {
        if bytes[pos + j] != lit[j] {
            proof {
                assert(bytes@.subrange(pos as int, pos + lit@.len())[j as int] == bytes@[pos
                    + j]);
            }
            return None;
        }
        j = j + 1;
    }
    Some(pos + lit.len())
}

/// A byte holding a decimal digit.
pub open spec fn is_digit(b: u8) -> bool {
    48 <= b <= 57
}

/// Where the run of digit bytes starting at `pos` ends.
pub open spec fn digit_run_end(bytes: Seq<u8>, pos: int) -> int
    decreases bytes.len() - pos,
{
    if 0 <= pos < bytes.len() && is_digit(bytes[pos]) {
        digit_run_end(bytes, pos + 1)
    } else {
        pos
    }
}

/// The value of a sequence of digit bytes, most significant first.
pub open spec fn dec_val(ds: Seq<u8>) -> int
    decreases ds.len(),
{
    if ds.len() == 0 {
        0
    } else {
        dec_val(ds.drop_last()) * 10 + (ds.last() - 48)
    }
}

/// A digit run never ends before it starts.
proof fn lemma_digit_run_ge(bytes: Seq<u8>, pos: int)
    ensures
        digit_run_end(bytes, pos) >= pos,
    decreases bytes.len() - pos,
{
    if 0 <= pos < bytes.len() && is_digit(bytes[pos]) {
        lemma_digit_run_ge(bytes, pos + 1);
    }
}

/// `k` digit bytes are worth less than `10^k` (with `10^k` unfolded for the
/// seven digits the parser accepts).
proof fn lemma_dec_val_bound(ds: Seq<u8>)
    requires
        forall|k: int| 0 <= k < ds.len() ==> is_digit(#[trigger] ds[k]),
        ds.len() <= 7,
    ensures
        0 <= dec_val(ds) < 10000000,
        ds.len() <= 6 ==> dec_val(ds) < 1000000,
        ds.len() <= 5 ==> dec_val(ds) < 100000,
        ds.len() <= 4 ==> dec_val(ds) < 10000,
        ds.len() <= 3 ==> dec_val(ds) < 1000,
        ds.len() <= 2 ==> dec_val(ds) < 100,
        ds.len() <= 1 ==> dec_val(ds) < 10,
    decreases ds.len(),
{
    if ds.len() > 0 {
        assert(forall|k: int|
            0 <= k < ds.drop_last().len() ==> is_digit(#[trigger] ds.drop_last()[k]));
        lemma_dec_val_bound(ds.drop_last());
        assert(is_digit(ds.last()));
    }
}

/// `ser_dec` emits at least one byte, all digits.
proof fn lemma_ser_dec_digits(n: int)
    requires
        n >= 0,
    ensures
        ser_dec(n).len() >= 1,
        forall|k: int| 0 <= k < ser_dec(n).len() ==> is_digit(#[trigger] ser_dec(n)[k]),
    decreases n,
{
    if n >= 10 {
        lemma_ser_dec_digits(n / 10);
        assert forall|k: int|
            0 <= k < ser_dec(n).len() implies is_digit(#[trigger] ser_dec(n)[k]) by {
            if k < ser_dec(n / 10).len() {
                assert(ser_dec(n)[k] == ser_dec(n / 10)[k]);
            }
        }
    }
}

/// Parsing inverts printing: the value of the digits of `n` is `n`.
proof fn lemma_dec_val_ser_dec(n: int)
    requires
        n >= 0,
    ensures
        dec_val(ser_dec(n)) == n,
    decreases n,
{
    if n < 10 {
        assert(ser_dec(n) == seq![(48 + n) as u8]);
        assert(ser_dec(n).len() == 1);
        assert(ser_dec(n).drop_last() =~= Seq::<u8>::empty());
        assert(dec_val(ser_dec(n).drop_last()) == 0);
        assert(ser_dec(n).last() == (48 + n) as u8);
        assert(((48 + n) as u8) == 48 + n);
        assert(dec_val(ser_dec(n)) == dec_val(ser_dec(n).drop_last()) * 10 + (ser_dec(n).last()
            - 48));
    } else {
        lemma_dec_val_ser_dec(n / 10);
        assert(ser_dec(n).drop_last() =~= ser_dec(n / 10));
        assert(ser_dec(n).last() == (48 + n % 10) as u8);
        assert(dec_val(ser_dec(n)) == (n / 10) * 10 + (((48 + n % 10) as u8) - 48));
        vstd::arithmetic::div_mod::lemma_fundamental_div_mod(n, 10);
    }
}

/// Numbers up to a million print in at most seven digits.
proof fn lemma_ser_dec_len(n: int)
    requires
        0 <= n <= 1000000,
    ensures
        ser_dec(n).len() <= 7,
        n <= 100000 ==> ser_dec(n).len() <= 6,
        n <= 10000 ==> ser_dec(n).len() <= 5,
        n <= 1000 ==> ser_dec(n).len() <= 4,
        n <= 255 ==> ser_dec(n).len() <= 3,
        n <= 99 ==> ser_dec(n).len() <= 2,
        n <= 9 ==> ser_dec(n).len() <= 1,
    decreases n,
{
    if n >= 10 {
        lemma_ser_dec_len(n / 10);
    }
}

/// When the bytes at `pos` are `ds` (all digits) followed by a non-digit,
/// the digit run is exactly `ds`.
proof fn lemma_digit_run_of(bytes: Seq<u8>, pos: int, ds: Seq<u8>, rest: Seq<u8>)
    requires
        0 <= pos <= bytes.len(),
        bytes.skip(pos) == ds + rest,
        forall|k: int| 0 <= k < ds.len() ==> is_digit(#[trigger] ds[k]),
        rest.len() > 0,
        !is_digit(rest[0]),
    ensures
        digit_run_end(bytes, pos) == pos + ds.len(),
        bytes.subrange(pos, pos + ds.len()) == ds,
    decreases ds.len(),
{
    assert(bytes.skip(pos).len() == bytes.len() - pos);
    if ds.len() == 0 {
        assert(bytes[pos] == (ds + rest)[0]);
        assert(!is_digit(bytes[pos]));
        assert(bytes.subrange(pos, pos) =~= ds);
    } else {
        assert(bytes[pos] == (ds + rest)[0]);
        assert(is_digit(bytes[pos]));
        assert(bytes.skip(pos + 1) =~= bytes.skip(pos).skip(1));
        assert(bytes.skip(pos).skip(1) =~= ds.drop_first() + rest);
        assert(forall|k: int|
            0 <= k < ds.drop_first().len() ==> is_digit(#[trigger] ds.drop_first()[k]));
        lemma_digit_run_of(bytes, pos + 1, ds.drop_first(), rest);
        assert(bytes.subrange(pos, pos + ds.len()) =~= ds) by {
            assert forall|k: int| 0 <= k < ds.len() implies bytes.subrange(
                pos,
                pos + ds.len(),
            )[k] == ds[k] by {
                assert(bytes.subrange(pos, pos + ds.len())[k] == bytes.skip(pos)[k]);
                assert((ds + rest)[k] == ds[k]);
            }
        }
    }
}

/// A run of one to seven decimal digits starting at `pos`, as its value.
/// `Some` exactly when the digit run at `pos` has such a length, and then
/// the returned position is the end of the run.
fn parse_number(bytes: &Vec<u8>, pos: usize) -> (r: Option<(u64, usize)>)
    requires
        pos <= bytes@.len(),
    ensures
        ({
            let q = digit_run_end(bytes@, pos as int);
            &&& (r is Some <==> 1 <= q - pos <= 7)
            &&& (r matches Some(v) ==> pos <= v.1 <= bytes@.len() && v.1 == q && v.0 == dec_val(
                bytes@.subrange(pos as int, q),
            ) && v.0 <= 9999999)
        }),
{
    let n = bytes.len();
    let mut p = pos;
    let mut val: u64 = 0;
    proof {
        assert(bytes@.subrange(pos as int, pos as int) =~= Seq::<u8>::empty());
    }
    while p < n && 48 <= bytes[p] && bytes[p] <= 57
        invariant
            n == bytes@.len(),
            pos <= p <= n,
            p - pos <= 7,
            digit_run_end(bytes@, pos as int) == digit_run_end(bytes@, p as int),
            forall|k: int| pos <= k < p ==> is_digit(#[trigger] bytes@[k]),
            val == dec_val(bytes@.subrange(pos as int, p as int)),
            val <= 9999999,
        decreases n - p,
    {
        proof {
            lemma_dec_val_bound(bytes@.subrange(pos as int, p as int));
        }
        if p - pos == 7 {
            proof {
                lemma_digit_run_ge(bytes@, p + 1);
            }
            return None;
        }
        val = val * 10 + ((bytes[p] - 48) as u64);
        proof {
            assert(bytes@.subrange(pos as int, (p + 1) as int).drop_last() =~= bytes@.subrange(
                pos as int,
                p as int,
            ));
            assert(bytes@.subrange(pos as int, (p + 1) as int).last() == bytes@[p as int]);
            lemma_dec_val_bound(bytes@.subrange(pos as int, (p + 1) as int));
        }
        p = p + 1;
    }
    if p == pos {
        return None;
    }
    Some((val, p))
}

/// The content bytes of a JSON string starting at `pos`, with the writer's
/// escapes undone; stops at (and does not consume) the closing quote.  A
/// caller that knows the bytes at `pos` to be the escaping of `w.0`, then a
/// quote, then `w.1` is promised success with exactly `w.0` back.
fn parse_string_raw(
    bytes: &Vec<u8>,
    pos: usize,
    Ghost(exp): Ghost<Option<(Seq<u8>, Seq<u8>)>>,
) -> (r: Option<(Vec<u8>, usize)>)
    requires
        pos <= bytes@.len(),
        exp matches Some(w) ==> bytes@.skip(pos as int) == json_escape(w.0) + seq![34u8] + w.1,
    ensures
        r matches Some(v) ==> pos <= v.1 <= bytes@.len(),
        exp matches Some(w) ==> (r matches Some(v) && v.0@ == w.0 && v.1 == pos + json_escape(
            w.0,
        ).len()),
{
    let n = bytes.len();
    let mut p = pos;
    let mut outb: Vec<u8> = Vec::new();
    let ghost mut ur: Seq<u8> = match exp {
        Some(w) => w.0,
        None => Seq::<u8>::empty(),
    };
    proof {
        match exp {
            Some(w) => {
                assert(outb@ + ur =~= w.0);
            },
            None => {},
        }
    }
    while p < n && bytes[p] != 34
        invariant
            n == bytes@.len(),
            pos <= p <= n,
            exp matches Some(w) ==> {
                &&& bytes@.skip(p as int) == json_escape(ur) + seq![34u8] + w.1
                &&& outb@ + ur == w.0
                &&& p + json_escape(ur).len() == pos + json_escape(w.0).len()
            },
        decreases n - p,
    {
        let ghost prev_out = outb@;
        let ghost prev_ur = ur;
        proof {
            match exp {
                Some(w) => {
                    if ur.len() == 0 {
                        assert(json_escape(ur).len() == 0);
                        assert(bytes@[p as int] == bytes@.skip(p as int)[0]);
                        assert((json_escape(ur) + seq![34u8] + w.1)[0] == 34);
                        assert(false);
                    }
                    assert(json_escape(ur) == esc_byte(ur[0]) + json_escape(ur.drop_first()));
                    let tail = json_escape(ur.drop_first()) + seq![34u8] + w.1;
                    assert(bytes@.skip(p as int) =~= esc_byte(ur[0]) + tail);
                    lemma_skip_peel(bytes@, p as int, esc_byte(ur[0]), tail);
                    assert forall|k: int| 0 <= k < esc_byte(ur[0]).len() implies bytes@[p + k]
                        == esc_byte(ur[0])[k] by {
                        assert(bytes@.skip(p as int)[k] == bytes@[p + k]);
                        assert((esc_byte(ur[0]) + tail)[k] == esc_byte(ur[0])[k]);
                    }
                    assert(bytes@[p as int] == esc_byte(ur[0])[0]);
                },
                None => {},
            }
        }
        let b = bytes[p];
        if b == 92 {
            if bytes.len() - p < 2 {
                proof {
                    match exp {
                        Some(w) => {
                            assert(bytes@.skip(p as int).len() >= esc_byte(ur[0]).len() + 1);
                            assert(esc_byte(ur[0])[0] == 92);
                            assert(esc_byte(ur[0]).len() >= 2);
                            assert(false);
                        },
                        None => {},
                    }
                }
                return None;
            }
            let e = bytes[p + 1];
            proof {
                match exp {
                    Some(w) => {
                        assert(esc_byte(ur[0])[0] == 92);
                        assert(ur[0] == 34 || ur[0] == 92 || ur[0] < 32);
                        assert(bytes@[p + 1] == esc_byte(ur[0])[1]);
                    },
                    None => {},
                }
            }
            if e == 34 {
                outb.push(34);
                p = p + 2;
                proof {
                    match exp {
                        Some(w) => {
                            assert(ur[0] == 34);
                            ur = ur.drop_first();
                            assert(outb@ =~= prev_out.push(34));
                            assert(prev_out.push(prev_ur[0]) + ur =~= prev_out + prev_ur);
                        },
                        None => {},
                    }
                }
            } else if e == 92 {
                outb.push(92);
                p = p + 2;
                proof {
                    match exp {
                        Some(w) => {
                            assert(ur[0] == 92);
                            ur = ur.drop_first();
                            assert(outb@ =~= prev_out.push(92));
                            assert(prev_out.push(prev_ur[0]) + ur =~= prev_out + prev_ur);
                        },
                        None => {},
                    }
                }
            } else if e == 117 {
                proof {
                    match exp {
                        Some(w) => {
                            assert(ur[0] < 32);
                            assert(esc_byte(ur[0]).len() == 6);
                            assert(bytes@.skip(p as int).len() >= 7);
                            assert(bytes@[p + 2] == esc_byte(ur[0])[2]);
                            assert(bytes@[p + 3] == esc_byte(ur[0])[3]);
                            assert(bytes@[p + 4] == esc_byte(ur[0])[4]);
                            assert(bytes@[p + 5] == esc_byte(ur[0])[5]);
                            lemma_hex_digit_props(ur[0] as int / 16);
                            lemma_hex_digit_props(ur[0] as int % 16);
                        },
                        None => {},
                    }
                }
                if bytes.len() - p < 6 {
                    return None;
                }
                if bytes[p + 2] != 48 || bytes[p + 3] != 48 {
                    return None;
                }
                let h1 = hex_val(bytes[p + 4]);
                let h2 = hex_val(bytes[p + 5]);
                if h1 == 255 || h2 == 255 {
                    return None;
                }
                let x = h1 * 16 + h2;
                outb.push(x);
                p = p + 6;
                proof {
                    match exp {
                        Some(w) => {
                            vstd::arithmetic::div_mod::lemma_fundamental_div_mod(
                                ur[0] as int,
                                16,
                            );
                            assert(x == prev_ur[0]);
                            ur = ur.drop_first();
                            assert(outb@ =~= prev_out.push(prev_ur[0]));
                            assert(prev_out.push(prev_ur[0]) + ur =~= prev_out + prev_ur);
                        },
                        None => {},
                    }
                }
            } else {
                proof {
                    match exp {
                        Some(w) => {
                            assert(esc_byte(ur[0])[1] == 34 || esc_byte(ur[0])[1] == 92
                                || esc_byte(ur[0])[1] == 117);
                            assert(false);
                        },
                        None => {},
                    }
                }
                return None;
            }
        } else if b < 32 {
            proof {
                match exp {
                    Some(w) => {
                        assert(esc_byte(ur[0])[0] == 92 || esc_byte(ur[0])[0] == ur[0]);
                        assert(false);
                    },
                    None => {},
                }
            }
            return None;
        } else {
            outb.push(b);
            p = p + 1;
            proof {
                match exp {
                    Some(w) => {
                        assert(ur[0] == b);
                        ur = ur.drop_first();
                        assert(outb@ =~= prev_out.push(prev_ur[0]));
                        assert(prev_out.push(prev_ur[0]) + ur =~= prev_out + prev_ur);
                    },
                    None => {},
                }
            }
        }
    }
    if p >= bytes.len() {
        proof {
            match exp {
                Some(w) => {
                    assert(bytes@.skip(p as int).len() >= 1);
                    assert(false);
                },
                None => {},
            }
        }
        return None;
    }
    proof {
        match exp {
            Some(w) => {
                if ur.len() > 0 {
                    assert(json_escape(ur) == esc_byte(ur[0]) + json_escape(ur.drop_first()));
                    assert(bytes@[p as int] == bytes@.skip(p as int)[0]);
                    assert((json_escape(ur) + seq![34u8] + w.1)[0] == esc_byte(ur[0])[0]);
                    assert(esc_byte(ur[0])[0] != 34);
                    assert(false);
                }
                assert(outb@ =~= outb@ + ur);
            },
            None => {},
        }
    }
    Some((outb, p))
}

/// A base64 string field starting at `pos`, decoded; stops at (and does not
/// consume) the closing quote.  A caller that knows the bytes at `pos` to
/// be the encoding of `w.0`, then a quote, then `w.1` is promised success
/// with exactly `w.0` back.
fn parse_b64_field(
    bytes: &Vec<u8>,
    pos: usize,
    Ghost(exp): Ghost<Option<(Seq<u8>, Seq<u8>)>>,
) -> (r: Option<(Vec<u8>, usize)>)
    requires
        pos <= bytes@.len(),
        exp matches Some(w) ==> bytes@.skip(pos as int) == b64_encode(w.0) + seq![34u8] + w.1,
    ensures
        r matches Some(v) ==> pos <= v.1 <= bytes@.len(),
        exp matches Some(w) ==> (r matches Some(v) && v.0@ == w.0 && v.1 == pos + b64_encode(
            w.0,
        ).len()),
{
    let ghost enc = match exp {
        Some(w) => b64_encode(w.0),
        None => Seq::<u8>::empty(),
    };
    proof {
        match exp {
            Some(w) => {
                lemma_b64_no_quote(w.0);
                lemma_b64_encode_len(w.0);
            },
            None => {},
        }
    }
    let n = bytes.len();
    let mut p = pos;
    let mut chars: Vec<u8> = Vec::new();
    while p < n && bytes[p] != 34
        invariant
            n == bytes@.len(),
            pos <= p <= n,
            chars@.len() == p - pos,
            forall|k: int| 0 <= k < chars@.len() ==> chars@[k] == bytes@[pos + k],
            exp matches Some(w) ==> {
                &&& bytes@.skip(pos as int) == b64_encode(w.0) + seq![34u8] + w.1
                &&& enc == b64_encode(w.0)
                &&& p <= pos + enc.len()
                &&& (forall|k: int| 0 <= k < enc.len() ==> #[trigger] enc[k] != 34)
            },
        decreases n - p,
    {
        proof {
            match exp {
                Some(w) => {
                    if p == pos + enc.len() {
                        assert(bytes@[p as int] == bytes@.skip(pos as int)[enc.len() as int]);
                        assert((b64_encode(w.0) + seq![34u8] + w.1)[enc.len() as int] == 34);
                        assert(false);
                    }
                },
                None => {},
            }
        }
        chars.push(bytes[p]);
        p = p + 1;
    }
    if p >= n {
        proof {
            match exp {
                Some(w) => {
                    assert(bytes@.skip(pos as int).len() == enc.len() + 1 + w.1.len());
                    assert(false);
                },
                None => {},
            }
        }
        return None;
    }
    proof {
        match exp {
            Some(w) => {
                if p < pos + enc.len() {
                    assert(bytes@[p as int] == bytes@.skip(pos as int)[p - pos]);
                    assert((b64_encode(w.0) + seq![34u8] + w.1)[p - pos] == enc[p - pos]);
                    assert(false);
                }
                assert(p == pos + enc.len());
                assert(chars@ =~= enc) by {
                    assert forall|k: int| 0 <= k < chars@.len() implies chars@[k] == enc[k] by {
                        assert(chars@[k] == bytes@[pos + k]);
                        assert(bytes@[pos + k] == bytes@.skip(pos as int)[k]);
                        assert((b64_encode(w.0) + seq![34u8] + w.1)[k] == enc[k]);
                    }
                }
            },
            None => {},
        }
    }
    let ghost mut dr: Seq<u8> = match exp {
        Some(w) => w.0,
        None => Seq::<u8>::empty(),
    };
    let mut outb: Vec<u8> = Vec::new();
    let mut i: usize = 0;
    proof {
        match exp {
            Some(w) => {
                assert(chars@.skip(0) =~= chars@);
                assert(outb@ + dr =~= w.0);
            },
            None => {},
        }
    }
    while i < chars.len()
        invariant
            i <= chars@.len(),
            exp matches Some(w) ==> {
                &&& chars@.skip(i as int) == b64_encode(dr)
                &&& outb@ + dr == w.0
            },
        decreases chars@.len() - i,
    {
        proof {
            match exp {
                Some(w) => {
                    assert(b64_encode(dr).len() == chars@.len() - i);
                    assert(dr.len() > 0) by {
                        if dr.len() == 0 {
                            assert(b64_encode(dr).len() == 0);
                            assert(false);
                        }
                    }
                    lemma_b64_encode_len(dr);
                },
                None => {},
            }
        }
        if chars.len() - i < 4 {
            proof {
                match exp {
                    Some(w) => {
                        assert(false);
                    },
                    None => {},
                }
            }
            return None;
        }
        proof {
            match exp {
                Some(w) => {
                    assert forall|k: int| 0 <= k < 4 implies #[trigger] chars@[i + k]
                        == b64_encode(dr)[k] by {
                        assert(chars@[i + k] == chars@.skip(i as int)[k]);
                    }
                    assert(chars@[i as int] == b64_encode(dr)[0]);
                    assert(chars@[i + 1] == b64_encode(dr)[1]);
                    assert(chars@[i + 2] == b64_encode(dr)[2]);
                    assert(chars@[i + 3] == b64_encode(dr)[3]);
                    if dr.len() >= 3 {
                        lemma_b64_group_decode(dr[0], dr[1], dr[2]);
                        lemma_b64_char_props(dr[0] as int / 4);
                        lemma_b64_char_props(dr[0] as int % 4 * 16 + dr[1] as int / 16);
                        lemma_b64_char_props(dr[1] as int % 16 * 4 + dr[2] as int / 64);
                        lemma_b64_char_props(dr[2] as int % 64);
                        assert(b64_encode(dr)[0] == b64_char(dr[0] as int / 4));
                        assert(b64_encode(dr)[1] == b64_char(
                            dr[0] as int % 4 * 16 + dr[1] as int / 16,
                        ));
                        assert(b64_encode(dr)[2] == b64_char(
                            dr[1] as int % 16 * 4 + dr[2] as int / 64,
                        ));
                        assert(b64_encode(dr)[3] == b64_char(dr[2] as int % 64));
                    } else if dr.len() == 2 {
                        lemma_b64_group_decode(dr[0], dr[1], 0);
                        lemma_b64_char_props(dr[0] as int / 4);
                        lemma_b64_char_props(dr[0] as int % 4 * 16 + dr[1] as int / 16);
                        lemma_b64_char_props(dr[1] as int % 16 * 4);
                        assert(b64_encode(dr)[0] == b64_char(dr[0] as int / 4));
                        assert(b64_encode(dr)[1] == b64_char(
                            dr[0] as int % 4 * 16 + dr[1] as int / 16,
                        ));
                        assert(b64_encode(dr)[2] == b64_char(dr[1] as int % 16 * 4));
                        assert(b64_encode(dr)[3] == 61);
                    } else {
                        lemma_b64_group_decode(dr[0], 0, 0);
                        lemma_b64_char_props(dr[0] as int / 4);
                        lemma_b64_char_props(dr[0] as int % 4 * 16);
                        assert(b64_encode(dr)[0] == b64_char(dr[0] as int / 4));
                        assert(b64_encode(dr)[1] == b64_char(dr[0] as int % 4 * 16));
                        assert(b64_encode(dr)[2] == 61);
                        assert(b64_encode(dr)[3] == 61);
                    }
                },
                None => {},
            }
        }
        let c0 = b64_val(chars[i]);
        let c1 = b64_val(chars[i + 1]);
        if c0 == 255 || c1 == 255 {
            return None;
        }
        let ch2 = chars[i + 2];
        let ch3 = chars[i + 3];
        let ghost prev_out = outb@;
        let ghost prev_dr = dr;
        if ch2 == 61 {
            if ch3 != 61 || i + 4 != chars.len() {
                return None;
            }
            if c1 % 16 != 0 {
                return None;
            }
            let x0 = c0 * 4 + c1 / 16;
            outb.push(x0);
            proof {
                match exp {
                    Some(w) => {
                        assert(dr.len() == 1);
                        assert(x0 == prev_dr[0]);
                        dr = Seq::<u8>::empty();
                        assert(outb@ =~= prev_out.push(prev_dr[0]));
                        assert(prev_out.push(prev_dr[0]) + dr =~= prev_out + prev_dr);
                        assert(chars@.skip((i + 4) as int) =~= b64_encode(dr));
                    },
                    None => {},
                }
            }
        } else if ch3 == 61 {
            let c2 = b64_val(ch2);
            if c2 == 255 || i + 4 != chars.len() {
                return None;
            }
            if c2 % 4 != 0 {
                return None;
            }
            let x0 = c0 * 4 + c1 / 16;
            let x1 = c1 % 16 * 16 + c2 / 4;
            outb.push(x0);
            outb.push(x1);
            proof {
                match exp {
                    Some(w) => {
                        assert(dr.len() == 2);
                        assert(x0 == prev_dr[0]);
                        assert(x1 == prev_dr[1]);
                        dr = Seq::<u8>::empty();
                        assert(outb@ =~= prev_out.push(prev_dr[0]).push(prev_dr[1]));
                        assert(prev_out.push(prev_dr[0]).push(prev_dr[1]) + dr =~= prev_out
                            + prev_dr);
                        assert(chars@.skip((i + 4) as int) =~= b64_encode(dr));
                    },
                    None => {},
                }
            }
        } else {
            let c2 = b64_val(ch2);
            let c3 = b64_val(ch3);
            if c2 == 255 || c3 == 255 {
                return None;
            }
            let x0 = c0 * 4 + c1 / 16;
            let x1 = c1 % 16 * 16 + c2 / 4;
            let x2 = c2 % 4 * 64 + c3;
            outb.push(x0);
            outb.push(x1);
            outb.push(x2);
            proof {
                match exp {
                    Some(w) => {
                        assert(dr.len() >= 3);
                        assert(x0 == prev_dr[0]);
                        assert(x1 == prev_dr[1]);
                        assert(x2 == prev_dr[2]);
                        dr = dr.skip(3);
                        assert(outb@ =~= prev_out.push(prev_dr[0]).push(prev_dr[1]).push(
                            prev_dr[2],
                        ));
                        assert(prev_out.push(prev_dr[0]).push(prev_dr[1]).push(prev_dr[2]) + dr
                            =~= prev_out + prev_dr);
                        assert(chars@.skip((i + 4) as int) =~= b64_encode(prev_dr).skip(4));
                        assert(b64_encode(prev_dr).skip(4) =~= b64_encode(dr));
                    },
                    None => {},
                }
            }
        }
        i = i + 4;
    }
    proof {
        match exp {
            Some(w) => {
                assert(chars@.skip(chars@.len() as int) =~= Seq::<u8>::empty());
                assert(b64_encode(dr).len() == 0);
                lemma_b64_encode_len(dr);
                assert(dr.len() == 0) by {
                    if dr.len() > 0 {
                        assert(false);
                    }
                }
                assert(outb@ =~= outb@ + dr);
            },
            None => {},
        }
    }
    Some((outb, p))
}

/// One serialized account entry starting at `pos`: its fields, and the
/// position just past its closing brace.  The entry's stored id must be
/// `expected_id`.  A caller that knows the bytes at `pos` to be the
/// serialization of `w.0` followed by `w.1` is promised success with
/// matching fields and the remainder at the returned position.
#[verifier::rlimit(100)]
fn parse_entry(
    bytes: &Vec<u8>,
    pos: usize,
    expected_id: u64,
    Ghost(wexp): Ghost<Option<(Account, Seq<u8>)>>,
) -> (r: Option<(Account, usize)>)
    requires
        pos <= bytes@.len(),
        1 <= expected_id <= 1000000,
        wexp matches Some(w) ==> bytes@.skip(pos as int) == ser_entry(w.0) + w.1 && w.0.id
            == expected_id && w.0.salt@.len() == 16 && w.0.passhash@.len() == 33,
    ensures
        r matches Some(v) ==> pos < v.1 <= bytes@.len() && v.0.id == expected_id as i64
            && v.0.salt@.len() == 16 && v.0.passhash@.len() == 33,
        wexp matches Some(w) ==> (r matches Some(v) && acc_matches(v.0, w.0) && bytes@.skip(
            v.1 as int,
        ) == w.1),
{
    let mut l_key_open: Vec<u8> = Vec::new();
    push_lit_key_open(&mut l_key_open);
    let mut l_username_key: Vec<u8> = Vec::new();
    push_lit_username_key(&mut l_username_key);
    let mut l_salt_key: Vec<u8> = Vec::new();
    push_lit_salt_key(&mut l_salt_key);
    let mut l_sharenumber_key: Vec<u8> = Vec::new();
    push_lit_sharenumber_key(&mut l_sharenumber_key);
    let mut l_passhash_key: Vec<u8> = Vec::new();
    push_lit_passhash_key(&mut l_passhash_key);
    let mut l_entry_close: Vec<u8> = Vec::new();
    push_lit_entry_close(&mut l_entry_close);
    let ghost a0: Account = if wexp is Some {
        (wexp->0).0
    } else {
        arbitrary()
    };
    let ghost tail0: Seq<u8> = if wexp is Some {
        (wexp->0).1
    } else {
        arbitrary()
    };
    let ghost ub0 = vstd::utf8::encode_utf8(a0.username@);
    let ghost r13 = lit_entry_close() + tail0;
    let ghost r12 = b64_encode(a0.passhash@) + r13;
    let ghost r11 = lit_passhash_key() + r12;
    let ghost r10 = ser_dec(a0.sharenumber as int) + r11;
    let ghost r9 = lit_sharenumber_key() + r10;
    let ghost r8 = b64_encode(a0.salt@) + r9;
    let ghost r7 = lit_salt_key() + r8;
    let ghost r6 = json_escape(ub0) + r7;
    let ghost r5 = lit_username_key() + r6;
    let ghost r4 = ser_dec(a0.id as int) + r5;
    let ghost r3 = lit_key_open() + r4;
    let ghost r2 = ser_dec(a0.id as int) + r3;
    proof {
        assert(l_key_open@ =~= lit_key_open());
        assert(l_username_key@ =~= lit_username_key());
        assert(l_salt_key@ =~= lit_salt_key());
        assert(l_sharenumber_key@ =~= lit_sharenumber_key());
        assert(l_passhash_key@ =~= lit_passhash_key());
        assert(l_entry_close@ =~= lit_entry_close());
        if wexp is Some {
            assert(bytes@.skip(pos as int) =~= seq![34u8] + r2);
            lemma_skip_peel(bytes@, pos as int, seq![34u8], r2);
            assert(bytes@[pos as int] == (seq![34u8] + r2)[0]);
            assert(pos < bytes@.len());
            lemma_ser_dec_digits(a0.id as int);
            lemma_ser_dec_len(a0.id as int);
            lemma_dec_val_ser_dec(a0.id as int);
            assert(r3[0] == lit_key_open()[0]);
            lemma_digit_run_of(bytes@, pos + 1, ser_dec(a0.id as int), r3);
        }
    }
    if !(pos < bytes.len() && bytes[pos] == 34) {
        return None;
    }
    let (key_id, p2) = match parse_number(bytes, pos + 1) {
        Some(v) => v,
        None => {
            return None;
        },
    };
    proof {
        if wexp is Some {
            assert(key_id == a0.id);
            assert(p2 == pos + 1 + ser_dec(a0.id as int).len());
            lemma_skip_peel(bytes@, pos + 1, ser_dec(a0.id as int), r3);
            lemma_skip_prefix(bytes@, p2 as int, lit_key_open(), r4);
        }
    }
    let p3 = match eat_lit(bytes, p2, &l_key_open) {
        Some(p) => p,
        None => {
            return None;
        },
    };
    proof {
        if wexp is Some {
            lemma_skip_peel(bytes@, p2 as int, lit_key_open(), r4);
            assert(r5[0] == lit_username_key()[0]);
            lemma_digit_run_of(bytes@, p3 as int, ser_dec(a0.id as int), r5);
        }
    }
    let (id2, p4) = match parse_number(bytes, p3) {
        Some(v) => v,
        None => {
            return None;
        },
    };
    if key_id != id2 {
        return None;
    }
    if id2 != expected_id {
        return None;
    }
    proof {
        if wexp is Some {
            lemma_skip_peel(bytes@, p3 as int, ser_dec(a0.id as int), r5);
            lemma_skip_prefix(bytes@, p4 as int, lit_username_key(), r6);
        }
    }
    let p5 = match eat_lit(bytes, p4, &l_username_key) {
        Some(p) => p,
        None => {
            return None;
        },
    };
    proof {
        if wexp is Some {
            lemma_skip_peel(bytes@, p4 as int, lit_username_key(), r6);
            assert(lit_salt_key() =~= seq![34u8] + lit_salt_key().drop_first());
            assert(bytes@.skip(p5 as int) =~= json_escape(ub0) + seq![34u8] + (
            lit_salt_key().drop_first() + r8));
        }
    }
    let ghost w_str: Option<(Seq<u8>, Seq<u8>)> = if wexp is Some {
        Some((ub0, lit_salt_key().drop_first() + r8))
    } else {
        None
    };
    let (ub, p6) = match parse_string_raw(bytes, p5, Ghost(w_str)) {
        Some(v) => v,
        None => {
            return None;
        },
    };
    proof {
        if wexp is Some {
            vstd::utf8::encode_utf8_valid_utf8(a0.username@);
        }
    }
    let username = match string_from_utf8(ub) {
        Some(s) => s,
        None => {
            return None;
        },
    };
    proof {
        if wexp is Some {
            vstd::utf8::encode_utf8_decode_utf8(username@);
            vstd::utf8::encode_utf8_decode_utf8(a0.username@);
            assert(username@ == a0.username@);
            assert(bytes@.skip(p5 as int) =~= json_escape(ub0) + (seq![34u8] + (
            lit_salt_key().drop_first() + r8)));
            lemma_skip_peel(
                bytes@,
                p5 as int,
                json_escape(ub0),
                seq![34u8] + (lit_salt_key().drop_first() + r8),
            );
            assert(seq![34u8] + (lit_salt_key().drop_first() + r8) =~= lit_salt_key() + r8);
            lemma_skip_prefix(bytes@, p6 as int, lit_salt_key(), r8);
        }
    }
    let p7 = match eat_lit(bytes, p6, &l_salt_key) {
        Some(p) => p,
        None => {
            return None;
        },
    };
    proof {
        if wexp is Some {
            lemma_skip_peel(bytes@, p6 as int, lit_salt_key(), r8);
            assert(lit_sharenumber_key() =~= seq![34u8] + lit_sharenumber_key().drop_first());
            assert(bytes@.skip(p7 as int) =~= b64_encode(a0.salt@) + seq![34u8] + (
            lit_sharenumber_key().drop_first() + r10));
        }
    }
    let ghost w_salt: Option<(Seq<u8>, Seq<u8>)> = if wexp is Some {
        Some((a0.salt@, lit_sharenumber_key().drop_first() + r10))
    } else {
        None
    };
    let (salt, p8) = match parse_b64_field(bytes, p7, Ghost(w_salt)) {
        Some(v) => v,
        None => {
            return None;
        },
    };
    if salt.len() != 16 {
        return None;
    }
    proof {
        if wexp is Some {
            assert(bytes@.skip(p7 as int) =~= b64_encode(a0.salt@) + (seq![34u8] + (
            lit_sharenumber_key().drop_first() + r10)));
            lemma_skip_peel(
                bytes@,
                p7 as int,
                b64_encode(a0.salt@),
                seq![34u8] + (lit_sharenumber_key().drop_first() + r10),
            );
            assert(seq![34u8] + (lit_sharenumber_key().drop_first() + r10)
                =~= lit_sharenumber_key() + r10);
            lemma_skip_prefix(bytes@, p8 as int, lit_sharenumber_key(), r10);
        }
    }
    let p9 = match eat_lit(bytes, p8, &l_sharenumber_key) {
        Some(p) => p,
        None => {
            return None;
        },
    };
    proof {
        if wexp is Some {
            lemma_skip_peel(bytes@, p8 as int, lit_sharenumber_key(), r10);
            lemma_ser_dec_digits(a0.sharenumber as int);
            lemma_ser_dec_len(a0.sharenumber as int);
            lemma_dec_val_ser_dec(a0.sharenumber as int);
            assert(r11[0] == lit_passhash_key()[0]);
            lemma_digit_run_of(bytes@, p9 as int, ser_dec(a0.sharenumber as int), r11);
        }
    }
    let (sn, p10) = match parse_number(bytes, p9) {
        Some(v) => v,
        None => {
            return None;
        },
    };
    if sn > 255 {
        return None;
    }
    proof {
        if wexp is Some {
            lemma_skip_peel(bytes@, p9 as int, ser_dec(a0.sharenumber as int), r11);
            lemma_skip_prefix(bytes@, p10 as int, lit_passhash_key(), r12);
        }
    }
    let p11 = match eat_lit(bytes, p10, &l_passhash_key) {
        Some(p) => p,
        None => {
            return None;
        },
    };
    proof {
        if wexp is Some {
            lemma_skip_peel(bytes@, p10 as int, lit_passhash_key(), r12);
            assert(lit_entry_close() =~= seq![34u8] + lit_entry_close().drop_first());
            assert(bytes@.skip(p11 as int) =~= b64_encode(a0.passhash@) + seq![34u8] + (
            lit_entry_close().drop_first() + tail0));
        }
    }
    let ghost w_ph: Option<(Seq<u8>, Seq<u8>)> = if wexp is Some {
        Some((a0.passhash@, lit_entry_close().drop_first() + tail0))
    } else {
        None
    };
    let (passhash, p12) = match parse_b64_field(bytes, p11, Ghost(w_ph)) {
        Some(v) => v,
        None => {
            return None;
        },
    };
    if passhash.len() != 33 {
        return None;
    }
    proof {
        if wexp is Some {
            assert(bytes@.skip(p11 as int) =~= b64_encode(a0.passhash@) + (seq![34u8] + (
            lit_entry_close().drop_first() + tail0)));
            lemma_skip_peel(
                bytes@,
                p11 as int,
                b64_encode(a0.passhash@),
                seq![34u8] + (lit_entry_close().drop_first() + tail0),
            );
            assert(seq![34u8] + (lit_entry_close().drop_first() + tail0) =~= lit_entry_close()
                + tail0);
            lemma_skip_prefix(bytes@, p12 as int, lit_entry_close(), tail0);
        }
    }
    let p13 = match eat_lit(bytes, p12, &l_entry_close) {
        Some(p) => p,
        None => {
            return None;
        },
    };
    proof {
        if wexp is Some {
            lemma_skip_peel(bytes@, p12 as int, lit_entry_close(), tail0);
        }
    }
    let acc = Account {
        id: expected_id as i64,
        username,
        salt,
        sharenumber: sn as u8,
        passhash,
    };
    Some((acc, p13))
}

/// One pass of recursive-descent parsing, validating the stored shape (ids
/// counting from 1, 16-byte salts, 33-byte pass hashes) as it goes.  A
/// caller that knows the bytes to be the serialization of a well-shaped
/// account list is promised success, with accounts that serialize back to
/// the same bytes.
#[verifier::rlimit(100)]
fn parse_accounts_raw(bytes: &Vec<u8>, Ghost(exp): Ghost<Option<Seq<Account>>>) -> (r: Option<
    Vec<Account>,
>)
    requires
        exp matches Some(accs0) ==> accounts_wf(accs0) && accs0.len() <= 1000000 && bytes@
            == spec_serialize(accs0),
    ensures
        r matches Some(accs) ==> accounts_wf(accs@) && accs@.len() <= 1000000,
        exp matches Some(accs0) ==> (r matches Some(accs) && accs@.len() == accs0.len() && forall|
            k: int,
        | 0 <= k < accs@.len() ==> acc_matches(#[trigger] accs@[k], accs0[k])),
{
    let ghost accs0: Seq<Account> = if exp is Some {
        exp->0
    } else {
        Seq::empty()
    };
    let mut l_header: Vec<u8> = Vec::new();
    push_lit_header(&mut l_header);
    let mut l_key_open: Vec<u8> = Vec::new();
    push_lit_key_open(&mut l_key_open);
    let mut l_username_key: Vec<u8> = Vec::new();
    push_lit_username_key(&mut l_username_key);
    let mut l_salt_key: Vec<u8> = Vec::new();
    push_lit_salt_key(&mut l_salt_key);
    let mut l_sharenumber_key: Vec<u8> = Vec::new();
    push_lit_sharenumber_key(&mut l_sharenumber_key);
    let mut l_passhash_key: Vec<u8> = Vec::new();
    push_lit_passhash_key(&mut l_passhash_key);
    let mut l_entry_close: Vec<u8> = Vec::new();
    push_lit_entry_close(&mut l_entry_close);
    let mut l_footer: Vec<u8> = Vec::new();
    push_lit_footer(&mut l_footer);
    proof {
        assert(l_header@ =~= lit_header());
        assert(l_key_open@ =~= lit_key_open());
        assert(l_username_key@ =~= lit_username_key());
        assert(l_salt_key@ =~= lit_salt_key());
        assert(l_sharenumber_key@ =~= lit_sharenumber_key());
        assert(l_passhash_key@ =~= lit_passhash_key());
        assert(l_entry_close@ =~= lit_entry_close());
        assert(l_footer@ =~= lit_footer());
        if exp is Some {
            let n0 = accs0.len() as int;
            assert(bytes@.skip(0) =~= bytes@);
            assert(bytes@ =~= lit_header() + (ser_entries(accs0, n0) + lit_footer()));
            lemma_skip_peel(bytes@, 0, lit_header(), ser_entries(accs0, n0) + lit_footer());
            lemma_skip_prefix(bytes@, 0, lit_header(), ser_entries(accs0, n0) + lit_footer());
            if n0 > 0 {
                lemma_rem_entries(accs0, 0);
                assert(ser_entries(accs0, 0) =~= Seq::<u8>::empty());
                assert(ser_entries(accs0, n0) + lit_footer() =~= rem_entries(accs0, 0));
            }
        }
    }
    let mut pos: usize = match eat_lit(bytes, 0, &l_header) {
        Some(p) => p,
        None => {
            return None;
        },
    };
    let mut accs: Vec<Account> = Vec::new();
    proof {
        if exp is Some {
            assert(pos == lit_header().len());
            assert(bytes@.skip(pos as int) == ser_entries(accs0, accs0.len() as int)
                + lit_footer());
        }
    }
    if pos < bytes.len() && bytes[pos] == 125 {
        proof {
            if exp is Some && accs0.len() > 0 {
                lemma_ser_entry_first(accs0[0]);
                assert(rem_entries(accs0, 0)[0] == ser_entry(accs0[0])[0]);
                assert(bytes@[pos as int] == bytes@.skip(pos as int)[0]);
                assert(false);
            }
            if exp is Some {
                assert(bytes@.skip(pos as int) =~= lit_footer() + Seq::<u8>::empty());
                lemma_skip_prefix(bytes@, pos as int, lit_footer(), Seq::empty());
            }
        }
        match eat_lit(bytes, pos, &l_footer) {
            Some(pe) => {
                if pe == bytes.len() {
                    return Some(accs);
                } else {
                    proof {
                        if exp is Some {
                            assert(bytes@.skip(pos as int).len() == lit_footer().len());
                            assert(false);
                        }
                    }
                    return None;
                }
            },
            None => {
                return None;
            },
        }
    }
    proof {
        if exp is Some {
            if accs0.len() == 0 {
                assert(bytes@.skip(pos as int) =~= lit_footer() + Seq::<u8>::empty());
                assert(bytes@.skip(pos as int).len() >= 1);
                assert(bytes@[pos as int] == bytes@.skip(pos as int)[0]);
                assert(false);
            }
            assert(bytes@.skip(pos as int) == rem_entries(accs0, 0));
        }
    }
    let mut done = false;
    while !done
        invariant
            l_footer@ == lit_footer(),
            accounts_wf(accs@),
            accs@.len() <= 1000000,
            pos <= bytes@.len(),
            accs0 == (if exp is Some {
                exp->0
            } else {
                Seq::<Account>::empty()
            }),
            exp is Some ==> accounts_wf(accs0) && accs0.len() <= 1000000,
            exp is Some ==> (forall|k: int|
                0 <= k < accs@.len() ==> acc_matches(#[trigger] accs@[k], accs0[k])),
            exp is Some && !done ==> accs@.len() < accs0.len() && bytes@.skip(pos as int)
                == rem_entries(accs0, accs@.len() as int),
            exp is Some && done ==> accs@.len() == accs0.len(),
        decreases bytes@.len() - pos, (if done {
            0int
        } else {
            1
        }),
    {
        let ghost n_cur = accs@.len() as int;
        let ghost a0 = accs0[n_cur];
        let ghost tail0: Seq<u8> = if n_cur + 1 < accs0.len() {
            seq![44u8] + rem_entries(accs0, n_cur + 1)
        } else {
            lit_footer()
        };
        proof {
            if exp is Some {
                assert(a0.id == n_cur + 1);
                assert(a0.salt@.len() == 16);
                assert(a0.passhash@.len() == 33);
                assert(bytes@.skip(pos as int) =~= ser_entry(a0) + tail0);
            }
        }
        if accs.len() >= 1000000 {
            proof {
                if exp is Some {
                    assert(false);
                }
            }
            return None;
        }
        let expected_id = (accs.len() as u64) + 1;
        let ghost wexp: Option<(Account, Seq<u8>)> = if exp is Some {
            Some((a0, tail0))
        } else {
            None
        };
        let (acc, p13) = match parse_entry(bytes, pos, expected_id, Ghost(wexp)) {
            Some(v) => v,
            None => {
                return None;
            },
        };
        let ghost old_accs = accs@;
        accs.push(acc);
        proof {
            assert(accounts_wf(accs@)) by {
                assert forall|t: int| 0 <= t < accs@.len() implies {
                    &&& (#[trigger] accs@[t]).id == t + 1
                    &&& accs@[t].salt@.len() == 16
                    &&& accs@[t].passhash@.len() == 33
                } by {
                    if t < accs@.len() - 1 {
                        assert(accs@[t] == old_accs[t]);
                        assert(old_accs[t].id == t + 1);
                    }
                }
            }
            if exp is Some {
                assert(acc_matches(accs@[n_cur], accs0[n_cur]));
                assert forall|k: int| 0 <= k < accs@.len() implies acc_matches(
                    #[trigger] accs@[k],
                    accs0[k],
                ) by {
                    if k < accs@.len() - 1 {
                        assert(accs@[k] == old_accs[k]);
                        assert(acc_matches(old_accs[k], accs0[k]));
                    }
                }
                if n_cur + 1 < accs0.len() {
                    assert(bytes@[p13 as int] == bytes@.skip(p13 as int)[0]);
                    assert((seq![44u8] + rem_entries(accs0, n_cur + 1))[0] == 44);
                    assert(p13 < bytes@.len());
                } else {
                    assert(bytes@[p13 as int] == bytes@.skip(p13 as int)[0]);
                    assert(lit_footer()[0] == 125);
                    assert(p13 < bytes@.len());
                }
            }
        }
        if p13 < bytes.len() && bytes[p13] == 44 {
            proof {
                if exp is Some {
                    if n_cur + 1 >= accs0.len() {
                        assert(false);
                    }
                    lemma_skip_peel(bytes@, p13 as int, seq![44u8], rem_entries(accs0, n_cur + 1));
                }
            }
            pos = p13 + 1;
        } else {
            proof {
                if exp is Some {
                    if n_cur + 1 < accs0.len() {
                        assert(false);
                    }
                    assert(bytes@.skip(p13 as int) =~= lit_footer() + Seq::<u8>::empty());
                    lemma_skip_prefix(bytes@, p13 as int, lit_footer(), Seq::empty());
                }
            }
            match eat_lit(bytes, p13, &l_footer) {
                Some(pe) => {
                    if pe != bytes.len() {
                        proof {
                            if exp is Some {
                                assert(bytes@.skip(p13 as int).len() == lit_footer().len());
                                assert(false);
                            }
                        }
                        return None;
                    }
                    pos = p13;
                    done = true;
                },
                None => {
                    return None;
                },
            }
        }
    }
    Some(accs)
}

/// Reads a password file.  Whatever it accepts re-serializes to exactly the
/// input: on `Ok`, the returned accounts are well-shaped and
/// `spec_serialize` of them is the input byte for byte.  Anything else is
/// rejected with a `SerError`.  A caller that knows the bytes to be the
/// serialization of a well-shaped account list is promised success.
pub(crate) fn parse_accounts(bytes: &Vec<u8>, Ghost(exp): Ghost<Option<Seq<Account>>>) -> (r:
    Result<Vec<Account>, PPHError>)
    requires
        exp matches Some(accs0) ==> accounts_wf(accs0) && accs0.len() <= 1000000 && bytes@
            == spec_serialize(accs0),
    ensures
        r matches Ok(accs) ==> accounts_wf(accs@) && accs@.len() <= 1000000 && spec_serialize(
            accs@,
        ) == bytes@,
        r matches Err(e) ==> e.kind == PPHErrorKind::SerError,
        exp is Some ==> r is Ok,
{
    match parse_accounts_raw(bytes, Ghost(exp)) {
        Some(accs) => {
            proof {
                if exp is Some {
                    let accs0 = exp->0;
                    lemma_serialize_congruent(accs@, accs0, accs@.len() as int);
                    assert(spec_serialize(accs@) == spec_serialize(accs0));
                }
            }
            let ser = serialize_accounts(&accs);
            if bytes_eq(&ser, bytes) {
                Ok(accs)
            } else {
                Err(PPHError::new(PPHErrorKind::SerError, "file is not in canonical form"))
            }
        },
        None => Err(PPHError::new(PPHErrorKind::SerError, "malformed password file")),
    }
}

} // verus!
