//! The persisted byte format of the account database, and its proof that a
//! saved store reads back unchanged.
//!
//! The file holds a record count followed by the records; each record is its
//! username and stored hash as length-prefixed UTF-8, then one admin byte.
//! `spec_encode` and `spec_decode` say what the bytes mean; `save` and
//! `from_bytes` produce and consume them, and `lemma_save_open_round_trip`
//! proves that decoding an encoding of any well-formed store returns exactly
//! that store.

use vstd::prelude::*;

use crate::accounts::{
    record_views, record_wf, seq_to_map, store_wf, usernames_unique, AccountRecord,
    AccountView, AccountsManager,
};
use crate::hashing;
use crate::hashing::hash_parses;
use vstd::bytes::{
    lemma_auto_spec_u64_to_from_le_bytes, spec_u64_from_le_bytes, spec_u64_to_le_bytes,
    u64_from_le_bytes, u64_to_le_bytes,
};
use vstd::slice::slice_index_get;
use vstd::string::StringSliceAdditionalSpecFns;
use vstd::utf8::{
    decode_utf8, encode_utf8, encode_utf8_decode_utf8, encode_utf8_valid_utf8, valid_utf8,
};

verus! {

/// The persisted store was not a well-formed encoding of any account
/// database; startup must treat this as data corruption, not an empty store.
#[derive(PartialEq, Eq, Structural, Clone, Copy, Debug)]
pub enum DecodeError {
    Corrupt,
}

/// A text as it sits in the file: its UTF-8 bytes, length first.
pub open spec fn enc_str(s: Seq<char>) -> Seq<u8> {
    spec_u64_to_le_bytes(encode_utf8(s).len() as u64) + encode_utf8(s)
}

/// A record as it sits in the file: username, stored hash, admin byte.
pub open spec fn enc_record(r: AccountView) -> Seq<u8> {
    enc_str(r.username) + enc_str(r.password_hash) + seq![
        if r.is_admin {
            1u8
        } else {
            0u8
        },
    ]
}

/// The records, in store order.
pub open spec fn enc_records(s: Seq<AccountView>) -> Seq<u8>
    decreases s.len(),
{
    if s.len() == 0 {
        Seq::empty()
    } else {
        enc_record(s[0]) + enc_records(s.drop_first())
    }
}

/// The whole file: record count, then the records.
pub open spec fn spec_encode(s: Seq<AccountView>) -> Seq<u8> {
    spec_u64_to_le_bytes(s.len() as u64) + enc_records(s)
}

/// Reads a count or length: eight little-endian bytes.
pub open spec fn dec_u64(b: Seq<u8>) -> Option<(u64, Seq<u8>)> {
    if b.len() >= 8 {
        Some((spec_u64_from_le_bytes(b.take(8)), b.skip(8)))
    } else {
        None
    }
}

/// Reads a length-prefixed text; the bytes must be valid UTF-8.
pub open spec fn dec_str(b: Seq<u8>) -> Option<(Seq<char>, Seq<u8>)> {
    match dec_u64(b) {
        Some((n, rest)) => if rest.len() >= n && valid_utf8(rest.take(n as int)) {
            Some((decode_utf8(rest.take(n as int)), rest.skip(n as int)))
        } else {
            None
        },
        None => None,
    }
}

/// Reads one record; the admin byte must be zero or one and the stored hash
/// must be one the password hasher accepts, else the file is corrupt.
pub open spec fn dec_record(b: Seq<u8>) -> Option<(AccountView, Seq<u8>)> {
    match dec_str(b) {
        Some((u, b1)) => match dec_str(b1) {
            Some((h, b2)) => if b2.len() >= 1 && (b2[0] == 0 || b2[0] == 1) && hash_parses(h) {
                Some(
                    (
                        AccountView { username: u, password_hash: h, is_admin: b2[0] == 1 },
                        b2.skip(1),
                    ),
                )
            } else {
                None
            },
            None => None,
        },
        None => None,
    }
}

/// Reads exactly `n` records.
pub open spec fn dec_records(b: Seq<u8>, n: nat) -> Option<(Seq<AccountView>, Seq<u8>)>
    decreases n,
{
    if n == 0 {
        Some((Seq::empty(), b))
    } else {
        match dec_record(b) {
            Some((r, b1)) => match dec_records(b1, (n - 1) as nat) {
                Some((s, b2)) => Some((seq![r] + s, b2)),
                None => None,
            },
            None => None,
        }
    }
}

/// What a persisted file means: the counted records, with nothing trailing
/// and no username appearing twice.
pub open spec fn spec_decode(b: Seq<u8>) -> Option<Seq<AccountView>> {
    match dec_u64(b) {
        Some((n, rest)) => match dec_records(rest, n as nat) {
            Some((s, b2)) => if b2.len() == 0 && usernames_unique(s) {
                Some(s)
            } else {
                None
            },
            None => None,
        },
        None => None,
    }
}

proof fn lemma_dec_u64_enc(x: u64, rest: Seq<u8>)
    ensures
        dec_u64(spec_u64_to_le_bytes(x) + rest) == Some((x, rest)),
{
    lemma_auto_spec_u64_to_from_le_bytes();
    assert((spec_u64_to_le_bytes(x) + rest).take(8) =~= spec_u64_to_le_bytes(x));
    assert((spec_u64_to_le_bytes(x) + rest).skip(8) =~= rest);
}

proof fn lemma_dec_str_enc(s: Seq<char>, rest: Seq<u8>)
    requires
        encode_utf8(s).len() <= u64::MAX,
    ensures
        dec_str(enc_str(s) + rest) == Some((s, rest)),
{
    let bytes = encode_utf8(s);
    let n = bytes.len() as u64;
    assert(enc_str(s) + rest =~= spec_u64_to_le_bytes(n) + (bytes + rest));
    lemma_dec_u64_enc(n, bytes + rest);
    assert((bytes + rest).take(n as int) =~= bytes);
    assert((bytes + rest).skip(n as int) =~= rest);
    encode_utf8_valid_utf8(s);
    encode_utf8_decode_utf8(s);
}

proof fn lemma_dec_record_enc(r: AccountView, rest: Seq<u8>)
    requires
        record_wf(r),
    ensures
        dec_record(enc_record(r) + rest) == Some((r, rest)),
{
    let flag = seq![
        if r.is_admin {
            1u8
        } else {
            0u8
        },
    ];
    assert(enc_record(r) + rest =~= enc_str(r.username) + (enc_str(r.password_hash) + (flag
        + rest)));
    lemma_dec_str_enc(r.username, enc_str(r.password_hash) + (flag + rest));
    lemma_dec_str_enc(r.password_hash, flag + rest);
    assert((flag + rest)[0] == flag[0]);
    assert((flag + rest).skip(1) =~= rest);
}

#[verifier::rlimit(50)]
proof fn lemma_dec_records_enc(s: Seq<AccountView>, rest: Seq<u8>)
    requires
        forall|i: int| 0 <= i < s.len() ==> record_wf(#[trigger] s[i]),
    ensures
        dec_records(enc_records(s) + rest, s.len() as nat) == Some((s, rest)),
    decreases s.len(),
{
    if s.len() == 0 {
        assert(enc_records(s) + rest =~= rest);
        assert(dec_records(rest, 0) == Some((Seq::<AccountView>::empty(), rest)));
        assert(s =~= Seq::<AccountView>::empty());
    } else {
        assert(enc_records(s) + rest =~= enc_record(s[0]) + (enc_records(s.drop_first()) + rest));
        lemma_dec_record_enc(s[0], enc_records(s.drop_first()) + rest);
        assert(forall|i: int|
            0 <= i < s.drop_first().len() ==> record_wf(#[trigger] s.drop_first()[i]));
        lemma_dec_records_enc(s.drop_first(), rest);
        assert(seq![s[0]] + s.drop_first() =~= s);
    }
}

/// Saving and reopening reconstructs the store exactly: decoding the
/// encoding of any well-formed account database returns that database,
/// record for record — so also username for username, hash for hash and
/// admin flag for admin flag.
pub proof fn lemma_save_open_round_trip(s: Seq<AccountView>)
    requires
        store_wf(s),
    ensures
        spec_decode(spec_encode(s)) == Some(s),
{
    lemma_dec_u64_enc(s.len() as u64, enc_records(s));
    assert(spec_encode(s) == spec_u64_to_le_bytes(s.len() as u64) + enc_records(s));
    lemma_dec_records_enc(s, Seq::<u8>::empty());
    assert(enc_records(s) + Seq::<u8>::empty() =~= enc_records(s));
}

/// Appends every byte of `b` to `out`.
fn push_bytes(out: &mut Vec<u8>, b: &[u8])
    ensures
        final(out)@ == old(out)@ + b@,
{
    let mut i: usize = 0;
    while i < b.len()
        invariant
            i <= b@.len(),
            out@ == old(out)@ + b@.take(i as int),
        decreases b@.len() - i,
    {
        let x = *slice_index_get(b, i);
        out.push(x);
        proof {
            assert(old(out)@ + b@.take(i as int) + seq![b@[i as int]] =~= old(out)@ + b@.take(
                i as int + 1,
            ));
        }
        i += 1;
    }
    proof {
        assert(b@.take(b@.len() as int) =~= b@);
    }
}

/// Appends a length-prefixed text.
fn push_str(out: &mut Vec<u8>, s: &str)
    ensures
        final(out)@ == old(out)@ + enc_str(s@),
{
    let b = s.as_bytes();
    let mut len_bytes = u64_to_le_bytes(b.len() as u64);
    out.append(&mut len_bytes);
    push_bytes(out, b);
    proof {
        assert(final(out)@ =~= old(out)@ + enc_str(s@));
    }
}

/// Appends one record.
fn push_record(out: &mut Vec<u8>, r: &AccountRecord)
    ensures
        final(out)@ == old(out)@ + enc_record(r@),
{
    push_str(out, r.username.as_str());
    push_str(out, r.password_hash.as_str());
    out.push(if r.is_admin {
        1u8
    } else {
        0u8
    });
    proof {
        assert(final(out)@ =~= old(out)@ + enc_record(r@));
    }
}

proof fn lemma_enc_records_snoc(s: Seq<AccountView>, r: AccountView)
    ensures
        enc_records(s.push(r)) == enc_records(s) + enc_record(r),
    decreases s.len(),
{
    if s.len() == 0 {
        assert(s.push(r)[0] == r);
        assert(s.push(r).drop_first() =~= Seq::<AccountView>::empty());
        assert(enc_records(Seq::<AccountView>::empty()) == Seq::<u8>::empty());
        assert(enc_records(s.push(r)) == enc_record(r) + Seq::<u8>::empty());
        assert(enc_records(s) == Seq::<u8>::empty());
        assert(enc_record(r) + Seq::<u8>::empty() =~= Seq::<u8>::empty() + enc_record(r));
    } else {
        assert(s.push(r).drop_first() =~= s.drop_first().push(r));
        lemma_enc_records_snoc(s.drop_first(), r);
        assert(s.push(r)[0] == s[0]);
        assert(enc_record(s[0]) + (enc_records(s.drop_first()) + enc_record(r)) =~= enc_record(
            s[0],
        ) + enc_records(s.drop_first()) + enc_record(r));
    }
}


/// Relies on `core::str::from_utf8`: it accepts exactly the byte slices that
/// are valid UTF-8, and on success returns the string whose bytes are the
/// input, unchanged.
#[verifier::external_body]
fn bytes_to_str(b: &[u8]) -> (r: Option<&str>)
    ensures
        r is Some <==> valid_utf8(b@),
        r is Some ==> r->0.spec_bytes() == b@,
{
    core::str::from_utf8(b).ok()
}

/// Copies `b[from..to]` out into a fresh buffer.
fn copy_range(b: &[u8], from: usize, to: usize) -> (r: Vec<u8>)
    requires
        from <= to <= b@.len(),
    ensures
        r@ == b@.subrange(from as int, to as int),
{
    let mut out: Vec<u8> = Vec::new();
    let mut i: usize = from;
    while i < to
        invariant
            from <= i <= to <= b@.len(),
            out@ == b@.subrange(from as int, i as int),
        decreases to - i,
    {
        let x = *slice_index_get(b, i);
        out.push(x);
        proof {
            assert(b@.subrange(from as int, i as int).push(b@[i as int]) =~= b@.subrange(
                from as int,
                i as int + 1,
            ));
        }
        i += 1;
    }
    out
}

/// Reads the eight-byte little-endian count or length at `pos`.
fn read_u64_at(input: &[u8], pos: usize) -> (r: Option<u64>)
    requires
        pos <= input@.len(),
    ensures
        r is Some <==> input@.len() >= pos + 8,
        r is Some ==> dec_u64(input@.skip(pos as int)) == Some(
            (r->0, input@.skip(pos as int + 8)),
        ),
        r is None ==> dec_u64(input@.skip(pos as int)) is None,
{
    if input.len() - pos < 8 {
        return None;
    }
    let bytes = copy_range(input, pos, pos + 8);
    let x = u64_from_le_bytes(bytes.as_slice());
    proof {
        assert(input@.skip(pos as int).take(8) =~= input@.subrange(pos as int, pos as int + 8));
        assert(input@.skip(pos as int).skip(8) =~= input@.skip(pos as int + 8));
    }
    Some(x)
}

/// Reads the length-prefixed text at `pos`; refuses truncated input and
/// bytes that are not UTF-8.
fn decode_str_at(input: &[u8], pos: usize) -> (r: Option<(String, usize)>)
    requires
        pos <= input@.len(),
    ensures
        match r {
            Some(p) => {
                &&& dec_str(input@.skip(pos as int)) == Some((p.0@, input@.skip(p.1 as int)))
                &&& pos <= p.1 <= input@.len()
                &&& encode_utf8(p.0@).len() <= usize::MAX
            },
            None => dec_str(input@.skip(pos as int)) is None,
        },
{
    let n = match read_u64_at(input, pos) {
        Some(x) => x,
        None => {
            return None;
        },
    };
    let total = input.len();
    let after = pos + 8;
    let avail = total - after;
    if n > avail as u64 {
        proof {
            assert(input@.skip(pos as int + 8).len() < n);
        }
        return None;
    }
    let nn = n as usize;
    let seg = copy_range(input, after, after + nn);
    let ghost rest = input@.skip(after as int);
    proof {
        assert(rest =~= input@.skip(pos as int + 8));
        assert(seg@ =~= rest.take(nn as int));
    }
    let text = match bytes_to_str(seg.as_slice()) {
        Some(t) => t,
        None => {
            return None;
        },
    };
    let owned = text.to_owned();
    proof {
        encode_utf8_decode_utf8(owned@);
        assert(rest.skip(nn as int) =~= input@.skip((after + nn) as int));
        assert(encode_utf8(owned@).len() == seg@.len());
    }
    Some((owned, after + nn))
}

/// Reads the record at `pos`: two texts and the admin byte; refuses an
/// admin byte other than zero or one, and a stored hash the password hasher
/// does not accept.
fn decode_record_at(input: &[u8], pos: usize) -> (r: Option<(AccountRecord, usize)>)
    requires
        pos <= input@.len(),
    ensures
        match r {
            Some(p) => {
                &&& dec_record(input@.skip(pos as int)) == Some((p.0@, input@.skip(p.1 as int)))
                &&& pos <= p.1 <= input@.len()
                &&& record_wf(p.0@)
            },
            None => dec_record(input@.skip(pos as int)) is None,
        },
{
    let (username, hash_pos) = match decode_str_at(input, pos) {
        Some(p) => p,
        None => {
            return None;
        },
    };
    let (hash, flag_pos) = match decode_str_at(input, hash_pos) {
        Some(p) => p,
        None => {
            return None;
        },
    };
    proof {
        assert(dec_str(input@.skip(pos as int)) == Some(
            (username@, input@.skip(hash_pos as int)),
        ));
    }
    if flag_pos >= input.len() {
        proof {
            assert(input@.skip(flag_pos as int).len() == 0);
        }
        return None;
    }
    let flag = *slice_index_get(input, flag_pos);
    proof {
        assert(input@.skip(flag_pos as int)[0] == input@[flag_pos as int]);
    }
    if flag > 1 {
        return None;
    }
    if !hashing::hash_record_parses(hash.as_str()) {
        return None;
    }
    let record = AccountRecord { username, password_hash: hash, is_admin: flag == 1 };
    proof {
        assert(input@.skip(flag_pos as int).skip(1) =~= input@.skip(flag_pos as int + 1));
    }
    Some((record, flag_pos + 1))
}

/// Whether no two of the records share a username.
fn check_unique(v: &Vec<AccountRecord>) -> (r: bool)
    ensures
        r == usernames_unique(record_views(v@)),
{
    let ghost views = record_views(v@);
    let mut i: usize = 0;
    while i < v.len()
        invariant
            i <= v@.len(),
            views == record_views(v@),
            forall|x: int, y: int| 0 <= x < y < v@.len() && x < i ==> views[x].username != views[y].username,
        decreases v@.len() - i,
    {
        let mut j: usize = i + 1;
        while j < v.len()
            invariant
                i < j <= v@.len(),
                i < v@.len(),
                views == record_views(v@),
                forall|x: int, y: int| 0 <= x < y < v@.len() && x < i ==> views[x].username != views[y].username,
                forall|y: int| i < y < j ==> views[i as int].username != views[y].username,
            decreases v@.len() - j,
        {
            if crate::accounts::str_eq(v[i].username.as_str(), v[j].username.as_str()) {
                proof {
                    assert(views[i as int].username == views[j as int].username);
                    assert(!usernames_unique(views));
                }
                return false;
            }
            j += 1;
        }
        i += 1;
    }
    proof {
        assert forall|x: int, y: int|
            0 <= x < views.len() && 0 <= y < views.len() && x != y implies views[x].username
            != views[y].username by {
            if x < y {
            } else {
            }
        }
    }
    true
}

impl AccountsManager {
    /// Serialises the whole store into the persisted byte format and marks
    /// it saved; the caller writes the bytes out, and calls `mark_dirty` if
    /// that write fails.
    pub fn save(&mut self) -> (r: Vec<u8>)
        requires
            old(self).wf(),
        ensures
            final(self).accounts == old(self).accounts,
            !final(self).dirty,
            r@ == spec_encode(old(self).records()),
    {
        self.dirty = false;
        let ghost recs = self.records();
        let mut out = u64_to_le_bytes(self.accounts.len() as u64);
        let mut i: usize = 0;
        while i < self.accounts.len()
            invariant
                self.accounts == old(self).accounts,
                !self.dirty,
                recs == self.records(),
                i <= self.accounts@.len(),
                out@ == spec_u64_to_le_bytes(recs.len() as u64) + enc_records(recs.take(i as int)),
            decreases self.accounts@.len() - i,
        {
            push_record(&mut out, &self.accounts[i]);
            proof {
                assert(recs.take(i as int).push(recs[i as int]) =~= recs.take(i as int + 1));
                lemma_enc_records_snoc(recs.take(i as int), recs[i as int]);
                assert(spec_u64_to_le_bytes(recs.len() as u64) + enc_records(recs.take(i as int))
                    + enc_record(recs[i as int]) =~= spec_u64_to_le_bytes(recs.len() as u64)
                    + enc_records(recs.take(i as int + 1)));
            }
            i += 1;
        }
        proof {
            assert(recs.take(recs.len() as int) =~= recs);
        }
        out
    }

    /// Rebuilds a store from persisted bytes, considered saved.
    ///
    /// Succeeds exactly when the bytes are a well-formed encoding: counted,
    /// nothing trailing, valid UTF-8 texts, admin bytes zero or one, stored
    /// hashes the password hasher accepts, and no username twice. Anything
    /// else is reported as corruption, never read as an empty store.
    pub fn from_bytes(input: &[u8]) -> (r: Result<AccountsManager, DecodeError>)
        ensures
            r is Ok <==> spec_decode(input@) is Some,
            r is Ok ==> {
                let s = spec_decode(input@)->0;
                &&& r->Ok_0.wf()
                &&& r->Ok_0.records() == s
                &&& r->Ok_0@ == seq_to_map(s)
                &&& !r->Ok_0.dirty
            },
    {
        proof {
            assert(input@.skip(0) =~= input@);
        }
        let n = match read_u64_at(input, 0) {
            Some(x) => x,
            None => {
                return Err(DecodeError::Corrupt);
            },
        };
        let mut out: Vec<AccountRecord> = Vec::new();
        let mut pos: usize = 8;
        let mut k: u64 = 0;
        while k < n
            invariant
                8 <= pos <= input@.len(),
                k <= n,
                dec_u64(input@) == Some((n, input@.skip(8))),
                out@.len() == k,
                forall|i: int|
                    0 <= i < record_views(out@).len() ==> record_wf(
                        #[trigger] record_views(out@)[i],
                    ),
                ({
                    let whole = dec_records(input@.skip(8), n as nat);
                    match dec_records(input@.skip(pos as int), (n - k) as nat) {
                        Some(p) => whole == Some((record_views(out@) + p.0, p.1)),
                        None => whole is None,
                    }
                }),
            decreases n - k,
        {
            let ghost old_out = out@;
            match decode_record_at(input, pos) {
                Some((rec, p2)) => {
                    let ghost rv = rec@;
                    out.push(rec);
                    proof {
                        assert(record_views(out@) =~= record_views(old_out).push(rv));
                        let tail = dec_records(input@.skip(p2 as int), (n - k - 1) as nat);
                        match tail {
                            Some(p) => {
                                assert(record_views(old_out) + (seq![rv] + p.0)
                                    =~= record_views(out@) + p.0);
                            },
                            None => {},
                        }
                    }
                    pos = p2;
                    k += 1;
                },
                None => {
                    return Err(DecodeError::Corrupt);
                },
            }
        }
        if pos != input.len() {
            proof {
                assert(input@.skip(pos as int).len() > 0);
            }
            return Err(DecodeError::Corrupt);
        }
        proof {
            assert(input@.skip(pos as int).len() == 0);
        }
        if !check_unique(&out) {
            return Err(DecodeError::Corrupt);
        }
        let count = out.len();
        let m = AccountsManager { accounts: out, dirty: false };
        proof {
            assert(m.records().len() == count);
        }
        Ok(m)
    }
}

} // verus!
