//! The files of a store in its directory: `conf` holds the options, `db`
//! the log, `snap.<lsn>` a snapshot at the offset `lsn`, which is written
//! as sixteen hexadecimal digits, and `snap.<lsn>.in___motion` a snapshot
//! that is being written.

use vstd::prelude::*;

use crate::pagecache::LogId;

verus! {

/// The digit that stands for `d`.
pub open spec fn hex_digit(d: int) -> u8 {
    if d < 10 {
        (48 + d) as u8
    } else {
        (87 + d) as u8
    }
}

/// The number that the digit `c` stands for, if it is a digit.
pub open spec fn hex_value(c: u8) -> Option<int> {
    if 48 <= c <= 57 {
        Some(c - 48)
    } else if 97 <= c <= 102 {
        Some(c - 87)
    } else {
        None
    }
}

/// `x` written with `n` digits.
pub open spec fn hex_of(x: int, n: nat) -> Seq<u8>
    decreases n,
{
    if n == 0 {
        Seq::empty()
    } else {
        hex_of(x / 16, (n - 1) as nat).push(hex_digit(x % 16))
    }
}

/// The number that digits stand for, if all are digits.
pub open spec fn hex_parse(s: Seq<u8>) -> Option<int>
    decreases s.len(),
{
    if s.len() == 0 {
        Some(0)
    } else {
        match (hex_parse(s.drop_last()), hex_value(s.last())) {
            (Some(a), Some(d)) => Some(a * 16 + d),
            _ => None,
        }
    }
}

/// The number of numbers that `n` digits can stand for.
pub open spec fn hex_cap(n: nat) -> int
    decreases n,
{
    if n == 0 {
        1
    } else {
        16 * hex_cap((n - 1) as nat)
    }
}

/// A number that is written with enough digits is read back.
pub proof fn lemma_hex(x: int, n: nat)
    requires
        0 <= x < hex_cap(n),
    ensures
        hex_of(x, n).len() == n,
        hex_parse(hex_of(x, n)) == Some(x),
    decreases n,
{
    if n > 0 {
        lemma_hex(x / 16, (n - 1) as nat);
        let s = hex_of(x, n);
        assert(s.drop_last() =~= hex_of(x / 16, (n - 1) as nat));
        assert(s.last() == hex_digit(x % 16));
    }
}

/// Digits stand for a number below the number of numbers that so many
/// digits can stand for.
pub proof fn lemma_hex_parse_bound(s: Seq<u8>)
    requires
        hex_parse(s) is Some,
    ensures
        0 <= hex_parse(s)->0 < hex_cap(s.len()),
    decreases s.len(),
{
    if s.len() > 0 {
        lemma_hex_parse_bound(s.drop_last());
    }
}

/// Sixteen digits stand for the numbers of `u64`.
pub proof fn lemma_hex_cap_16()
    ensures
        hex_cap(16) == 0x1_0000_0000_0000_0000,
{
    reveal_with_fuel(hex_cap, 17);
}

/// The beginning of the name of a snapshot: `snap.`.
pub open spec fn snap_prefix() -> Seq<u8> {
    seq![115u8, 110u8, 97u8, 112u8, 46u8]
}

/// The end of the name of a snapshot that is being written:
/// `.in___motion`.
pub open spec fn motion_suffix() -> Seq<u8> {
    seq![46u8, 105u8, 110u8, 95u8, 95u8, 95u8, 109u8, 111u8, 116u8, 105u8, 111u8, 110u8]
}

/// The name of the snapshot at the offset `lsn`.
pub open spec fn snapshot_name_of(lsn: LogId) -> Seq<u8> {
    snap_prefix() + hex_of(lsn as int, 16)
}

/// The offset of the snapshot with the name `name`, if it is the name of a
/// snapshot that was written whole.
pub open spec fn snapshot_lsn(name: Seq<u8>) -> Option<LogId> {
    if name.len() == 21 && name.subrange(0, 5) == snap_prefix() {
        match hex_parse(name.subrange(5, 21)) {
            Some(v) => Some(v as LogId),
            None => None,
        }
    } else {
        None
    }
}

/// Whether `name` is the name of a snapshot that is being written.
pub open spec fn in_motion(name: Seq<u8>) -> bool {
    name.len() >= 17 && name.subrange(0, 5) == snap_prefix() && name.subrange(
        name.len() - 12,
        name.len() as int,
    ) == motion_suffix()
}

/// The name of a snapshot is read back as its offset, and is not the name
/// of a snapshot that is being written; the name of a snapshot that is being
/// written is no name of a snapshot.
pub proof fn law_snapshot_name(lsn: LogId)
    ensures
        snapshot_lsn(snapshot_name_of(lsn)) == Some(lsn),
        !in_motion(snapshot_name_of(lsn)),
        snapshot_lsn(snapshot_name_of(lsn) + motion_suffix()) is None,
        in_motion(snapshot_name_of(lsn) + motion_suffix()),
{
    lemma_hex_cap_16();
    lemma_hex(lsn as int, 16);
    let name = snapshot_name_of(lsn);
    assert(name.subrange(0, 5) =~= snap_prefix());
    assert(name.subrange(5, 21) =~= hex_of(lsn as int, 16));
    let tail = name.subrange(name.len() - 12, name.len() as int);
    if tail == motion_suffix() {
        // the last character of the name would be `n`, which is no digit
        let digits = hex_of(lsn as int, 16);
        assert(tail[11] == name[20]);
        assert(name[20] == digits[15]);
        assert(digits.last() == hex_digit((lsn as int) % 16));
    }
    let moving = name + motion_suffix();
    assert(moving.subrange(0, 5) =~= snap_prefix());
    assert(moving.subrange(moving.len() - 12, moving.len() as int) =~= motion_suffix());
}

/// Appends `x` written with `n` digits.
fn put_hex(out: &mut Vec<u8>, x: u64, n: u8)
    ensures
        final(out)@ == old(out)@ + hex_of(x as int, n as nat),
    decreases n,
{
    if n == 0 {
        proof {
            assert(out@ =~= old(out)@ + hex_of(x as int, 0));
        }
    } else {
        put_hex(out, x / 16, n - 1);
        let d: u8 = (x % 16) as u8;
        let c: u8 = if d < 10 {
            48 + d
        } else {
            87 + d
        };
        out.push(c);
        proof {
            assert(out@ =~= old(out)@ + hex_of(x as int, n as nat));
        }
    }
}

/// The name of the snapshot at the offset `lsn`.
pub fn snapshot_name(lsn: LogId) -> (r: Vec<u8>)
    ensures
        r@ == snapshot_name_of(lsn),
{
    let mut out: Vec<u8> = Vec::new();
    out.push(115u8);
    out.push(110u8);
    out.push(97u8);
    out.push(112u8);
    out.push(46u8);
    proof {
        assert(out@ =~= snap_prefix());
    }
    put_hex(&mut out, lsn, 16);
    out
}

/// The name under which the snapshot at the offset `lsn` is written before
/// it is whole.
pub fn motion_name(lsn: LogId) -> (r: Vec<u8>)
    ensures
        r@ == snapshot_name_of(lsn) + motion_suffix(),
{
    let mut out = snapshot_name(lsn);
    let ghost name = out@;
    out.push(46u8);
    out.push(105u8);
    out.push(110u8);
    out.push(95u8);
    out.push(95u8);
    out.push(95u8);
    out.push(109u8);
    out.push(111u8);
    out.push(116u8);
    out.push(105u8);
    out.push(111u8);
    out.push(110u8);
    proof {
        assert(out@ =~= name + motion_suffix());
    }
    out
}

/// Whether `name` begins with `snap.`.
fn has_prefix(name: &[u8]) -> (r: bool)
    ensures
        r == (name@.len() >= 5 && name@.subrange(0, 5) == snap_prefix()),
{
    if name.len() < 5 {
        return false;
    }
    let r = name[0] == 115 && name[1] == 110 && name[2] == 97 && name[3] == 112 && name[4] == 46;
    proof {
        if r {
            assert(name@.subrange(0, 5) =~= snap_prefix());
        } else {
            let p = name@.subrange(0, 5);
            assert(p[0] == name@[0] && p[1] == name@[1] && p[2] == name@[2] && p[3] == name@[3]
                && p[4] == name@[4]);
        }
    }
    r
}

/// The offset of the snapshot with the name `name`, if it is the name of a
/// snapshot that was written whole.
pub fn parse_snapshot_name(name: &[u8]) -> (r: Option<LogId>)
    ensures
        r == snapshot_lsn(name@),
{
    if name.len() != 21 || !has_prefix(name) {
        return None;
    }
    let ghost digits = name@.subrange(5, 21);
    let mut acc: u64 = 0;
    let mut i: usize = 0;
    proof {
        assert(digits.take(0) =~= Seq::<u8>::empty());
        lemma_hex_cap_16();
    }
    while i < 16
        invariant
            i <= 16,
            name@.len() == 21,
            digits == name@.subrange(5, 21),
            hex_parse(digits.take(i as int)) == Some(acc as int),
            acc < hex_cap(i as nat),
            hex_cap(16) == 0x1_0000_0000_0000_0000,
        decreases 16 - i,
    {
        let c = name[5 + i];
        proof {
            assert(digits.take(i + 1).drop_last() =~= digits.take(i as int));
            assert(digits.take(i + 1).last() == c);
            lemma_hex_cap_mono((i + 1) as nat, 16);
        }
        let d: u64 = if 48 <= c && c <= 57 {
            (c - 48) as u64
        } else if 97 <= c && c <= 102 {
            (c - 87) as u64
        } else {
            proof {
                lemma_hex_parse_prefix(digits, i + 1);
            }
            return None;
        };
        acc = acc * 16 + d;
        i += 1;
    }
    proof {
        assert(digits.take(16) =~= digits);
    }
    Some(acc)
}

/// More digits stand for more numbers.
pub proof fn lemma_hex_cap_mono(a: nat, b: nat)
    requires
        a <= b,
    ensures
        0 < hex_cap(a) <= hex_cap(b),
    decreases b,
{
    if a < b {
        lemma_hex_cap_mono(a, (b - 1) as nat);
    } else if a > 0 {
        lemma_hex_cap_mono((a - 1) as nat, (a - 1) as nat);
    }
}

/// Where the beginning of a string of digits stands for no number, the
/// string stands for none.
pub proof fn lemma_hex_parse_prefix(s: Seq<u8>, n: int)
    requires
        0 <= n <= s.len(),
        hex_parse(s.take(n)) is None,
    ensures
        hex_parse(s) is None,
    decreases s.len(),
{
    if n == s.len() {
        assert(s.take(n) =~= s);
    } else {
        assert(s.drop_last().take(n) =~= s.take(n));
        lemma_hex_parse_prefix(s.drop_last(), n);
    }
}

/// Whether `name` is the name of a snapshot that is being written.
pub fn is_in_motion(name: &[u8]) -> (r: bool)
    ensures
        r == in_motion(name@),
{
    if name.len() < 17 || !has_prefix(name) {
        return false;
    }
    let n = name.len();
    let r = name[n - 12] == 46 && name[n - 11] == 105 && name[n - 10] == 110 && name[n - 9] == 95
        && name[n - 8] == 95 && name[n - 7] == 95 && name[n - 6] == 109 && name[n - 5] == 111
        && name[n - 4] == 116 && name[n - 3] == 105 && name[n - 2] == 111 && name[n - 1] == 110;
    proof {
        let t = name@.subrange(n - 12, n as int);
        if r {
            assert(t =~= motion_suffix());
        } else {
            assert(t[0] == name@[n - 12] && t[1] == name@[n - 11] && t[2] == name@[n - 10] && t[3]
                == name@[n - 9] && t[4] == name@[n - 8] && t[5] == name@[n - 7] && t[6] == name@[n
                - 6] && t[7] == name@[n - 5] && t[8] == name@[n - 4] && t[9] == name@[n - 3]
                && t[10] == name@[n - 2] && t[11] == name@[n - 1]);
        }
    }
    r
}

/// The names of `names`, as byte strings.
pub open spec fn names_view(names: Seq<Vec<u8>>) -> Seq<Seq<u8>> {
    Seq::new(names.len(), |i: int| names[i]@)
}

/// The place of the newest snapshot among the first `n` names: the last
/// name of a whole snapshot with the greatest offset.
pub open spec fn newest(names: Seq<Seq<u8>>, n: int) -> Option<int>
    decreases n,
{
    if n <= 0 {
        None
    } else {
        let before = newest(names, n - 1);
        match snapshot_lsn(names[n - 1]) {
            None => before,
            Some(lsn) => match before {
                None => Some(n - 1),
                Some(b) => if snapshot_lsn(names[b])->0 <= lsn {
                    Some(n - 1)
                } else {
                    before
                },
            },
        }
    }
}

/// The newest snapshot is a whole snapshot, and no whole snapshot has a
/// greater offset.
pub proof fn lemma_newest(names: Seq<Seq<u8>>, n: int)
    requires
        0 <= n <= names.len(),
    ensures
        match newest(names, n) {
            Some(b) => 0 <= b < n && snapshot_lsn(names[b]) is Some && forall|i: int|
                0 <= i < n && snapshot_lsn(#[trigger] names[i]) is Some ==> snapshot_lsn(
                    names[i],
                )->0 <= snapshot_lsn(names[b])->0,
            None => forall|i: int| 0 <= i < n ==> snapshot_lsn(#[trigger] names[i]) is None,
        },
    decreases n,
{
    if n > 0 {
        lemma_newest(names, n - 1);
    }
}

/// The place of the newest snapshot in the directory with the files
/// `names`, with its offset.
pub fn newest_snapshot(names: &Vec<Vec<u8>>) -> (r: Option<(usize, LogId)>)
    ensures
        match r {
            Some((i, lsn)) => newest(names_view(names@), names@.len() as int) == Some(i as int)
                && snapshot_lsn(names@[i as int]@) == Some(lsn),
            None => newest(names_view(names@), names@.len() as int) is None,
        },
{
    let mut best: Option<(usize, LogId)> = None;
    let mut i: usize = 0;
    let ghost view = names_view(names@);
    while i < names.len()
        invariant
            i <= names.len(),
            view == names_view(names@),
            match best {
                Some((b, lsn)) => newest(view, i as int) == Some(b as int) && b < i
                    && snapshot_lsn(view[b as int]) == Some(lsn),
                None => newest(view, i as int) is None,
            },
        decreases names.len() - i,
    {
        match parse_snapshot_name(names[i].as_slice()) {
            None => {},
            Some(lsn) => {
                best = match best {
                    None => Some((i, lsn)),
                    Some((b, old_lsn)) => if old_lsn <= lsn {
                        Some((i, lsn))
                    } else {
                        Some((b, old_lsn))
                    },
                };
            },
        }
        i += 1;
    }
    best
}

/// Whether the file `name` is to be removed once the snapshot at the offset
/// `keep` is whole: a snapshot that is being written, or a whole snapshot
/// at a lesser offset.
pub open spec fn stale(name: Seq<u8>, keep: LogId) -> bool {
    in_motion(name) || (snapshot_lsn(name) is Some && snapshot_lsn(name)->0 < keep)
}

/// Whether the file `name` is to be removed once the snapshot at the offset
/// `keep` is whole.
pub fn is_stale(name: &[u8], keep: LogId) -> (r: bool)
    ensures
        r == stale(name@, keep),
{
    if is_in_motion(name) {
        return true;
    }
    match parse_snapshot_name(name) {
        Some(lsn) => lsn < keep,
        None => false,
    }
}

} // verus!
