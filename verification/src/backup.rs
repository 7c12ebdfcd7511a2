//! Backups of the data file: four generations, each in a folder of its own,
//! each with a bucket size that names its files and a number of files that
//! it keeps.

use vstd::prelude::*;
use vstd::string::*;
use vstd::seq_lib::to_multiset_len;
use vstd::utf8::encode_utf8;
use crate::text::{
    ascending, decimal, lemma_ascending_unique, lemma_bytes_lt_extend, lemma_bytes_lt_prefix,
    lemma_decimal_order, lemma_encode_concat, lemma_text_lt_total, push_decimal, sort_texts,
    text_lt, texts,
};

verus! {

/// A generation of backups.
#[derive(Debug, Copy, Clone, PartialEq, Eq, Structural)]
pub enum Generation {
    /// One file per second in which the data was written.
    History,
    /// One file per hour.
    Hourly,
    /// One file per day.
    Daily,
    /// One file per 28 days.
    Monthly,
}

/// `n` in base ten, with a minus sign where it is negative.
pub open spec fn signed_decimal(n: int) -> Seq<char> {
    if n < 0 {
        seq!['-'] + decimal((-n) as nat)
    } else {
        decimal(n as nat)
    }
}

/// The name of the data file for `base`.
pub open spec fn data_file_name(base: Seq<char>) -> Seq<char> {
    base + ".json"@
}

/// The name of the backup of `base` for bucket `key`.
pub open spec fn backup_file_name(base: Seq<char>, key: int) -> Seq<char> {
    base + seq!['-'] + signed_decimal(key) + ".json"@
}

/// How many of `count` files go when `keep` are kept.
pub open spec fn surplus(count: nat, keep: nat) -> nat {
    if count > keep {
        (count - keep) as nat
    } else {
        0
    }
}

/// `a` divided by `d`, rounded down.
fn floor_div(a: i64, d: u32) -> (q: i64)
    requires
        d > 0,
    ensures
        q == a as int / d as int,
{
    if a >= 0 {
        let q = (a as u64) / (d as u64);
        assert(q == a as int / d as int);
        q as i64
    } else {
        let m: u64 = (-(a + 1)) as u64;
        let q = m / (d as u64);
        assert(a as int / d as int == -(q as int) - 1) by (nonlinear_arith)
            requires
                a < 0,
                d > 0,
                m == -(a + 1),
                q == m as int / d as int,
        ;
        -(q as i64) - 1
    }
}

impl Generation {
    /// The length of a bucket in seconds.
    pub open spec fn bucket_seconds(self) -> int {
        match self {
            Generation::History => 1,
            Generation::Hourly => 3600,
            Generation::Daily => 86400,
            Generation::Monthly => 2419200,
        }
    }

    /// How many files the generation keeps; the monthly one keeps all.
    pub open spec fn retention(self) -> usize {
        match self {
            Generation::History => 20,
            Generation::Hourly => 24,
            Generation::Daily => 30,
            Generation::Monthly => usize::MAX,
        }
    }

    /// The folder of the generation.
    pub open spec fn folder_name(self) -> Seq<char> {
        match self {
            Generation::History => "bku/history"@,
            Generation::Hourly => "bku/hourly"@,
            Generation::Daily => "bku/daily"@,
            Generation::Monthly => "bku/monthly"@,
        }
    }

    /// How many files the generation keeps.
    pub fn keep(self) -> (n: usize)
        ensures
            n == self.retention(),
    {
        match self {
            Generation::History => 20,
            Generation::Hourly => 24,
            Generation::Daily => 30,
            Generation::Monthly => usize::MAX,
        }
    }

    /// The folder of the generation.
    pub fn folder(self) -> (s: &'static str)
        ensures
            s@ == self.folder_name(),
    {
        match self {
            Generation::History => "bku/history",
            Generation::Hourly => "bku/hourly",
            Generation::Daily => "bku/daily",
            Generation::Monthly => "bku/monthly",
        }
    }

    /// The bucket that `timestamp` (seconds since 1970) falls in: the
    /// timestamp divided by the bucket's length, rounded down.
    pub fn key(self, timestamp: i64) -> (k: i64)
        ensures
            k == timestamp as int / self.bucket_seconds(),
    {
        match self {
            Generation::History => timestamp,
            Generation::Hourly => floor_div(timestamp, 3600),
            Generation::Daily => floor_div(timestamp, 86400),
            Generation::Monthly => floor_div(timestamp, 2419200),
        }
    }

    /// The name of the backup file of `base` that a write at `timestamp`
    /// makes in this generation: writes in one bucket share one file.
    pub fn file(self, base: &str, timestamp: i64) -> (name: String)
        ensures
            name@ == backup_file_name(base@, timestamp as int / self.bucket_seconds()),
    {
        backup_name(base, self.key(timestamp))
    }
}

/// The name of the data file for `base`.
pub fn data_file(base: &str) -> (name: String)
    ensures
        name@ == data_file_name(base@),
{
    let mut name = String::from_str(base);
    name.append(".json");
    name
}

/// The name of the backup of `base` for bucket `key`.
pub fn backup_name(base: &str, key: i64) -> (name: String)
    ensures
        name@ == backup_file_name(base@, key as int),
{
    let mut name = String::from_str(base);
    proof {
        reveal_strlit("-");
    }
    name.append("-");
    assert(name@ =~= base@ + seq!['-']);
    if key < 0 {
        name.append("-");
        let magnitude: u64 = (-(key + 1)) as u64 + 1;
        push_decimal(&mut name, magnitude);
        assert(name@ =~= base@ + seq!['-'] + signed_decimal(key as int));
    } else {
        push_decimal(&mut name, key as u64);
    }
    name.append(".json");
    name
}

/// What becomes of the files of a folder.
#[derive(Debug)]
pub struct Pruning {
    /// The files to delete: the first in canonical order.
    pub doomed: Vec<String>,
    /// The files to keep: the last in canonical order.
    pub kept: Vec<String>,
}

/// Decides which of the files `existing` of a folder go so that no more
/// than `keep` stay: the surplus goes, first in canonical order of name.
pub fn prune(existing: Vec<String>, keep: usize) -> (r: Pruning)
    ensures
        r.doomed.len() == surplus(existing.len() as nat, keep as nat),
        r.doomed.len() + r.kept.len() == existing.len(),
        ascending(texts(r.doomed@) + texts(r.kept@)),
        (texts(r.doomed@) + texts(r.kept@)).to_multiset() == texts(existing@).to_multiset(),
{
    let mut sorted = sort_texts(existing);
    let ghost all = sorted@;
    let count = sorted.len();
    let cut = if count > keep {
        count - keep
    } else {
        0
    };
    let kept = sorted.split_off(cut);
    assert(texts(sorted@) + texts(kept@) =~= texts(all));
    Pruning { doomed: sorted, kept }
}

/// The names of the backups of `base` for the buckets `keys`, in their
/// order.
pub open spec fn backup_names(base: Seq<char>, keys: Seq<int>) -> Seq<Seq<char>> {
    Seq::new(keys.len(), |i: int| backup_file_name(base, keys[i]))
}

/// The buckets are listed from the oldest to the newest, none is before
/// 1970, and their numbers have as many digits each.
pub open spec fn ordered_buckets(keys: Seq<int>) -> bool {
    &&& forall|i: int| 0 <= i < keys.len() ==> 0 <= #[trigger] keys[i]
    &&& forall|i: int, j: int| 0 <= i < j < keys.len() ==> #[trigger] keys[i] < #[trigger] keys[j]
    &&& forall|i: int, j: int|
        0 <= i < j < keys.len() ==> decimal((#[trigger] keys[i]) as nat).len() == decimal(
            (#[trigger] keys[j]) as nat,
        ).len()
}

/// Of two buckets whose numbers have as many digits, the file of the older
/// one comes first in the canonical order.
pub proof fn lemma_name_order(base: Seq<char>, older: int, newer: int)
    requires
        0 <= older < newer,
        decimal(older as nat).len() == decimal(newer as nat).len(),
    ensures
        text_lt(backup_file_name(base, older), backup_file_name(base, newer)),
{
    let head = base + seq!['-'];
    let tail = ".json"@;
    let a = decimal(older as nat);
    let b = decimal(newer as nat);
    lemma_encode_concat(head + a, tail);
    lemma_encode_concat(head, a);
    lemma_encode_concat(head + b, tail);
    lemma_encode_concat(head, b);
    lemma_decimal_order(older as nat, newer as nat);
    lemma_bytes_lt_extend(encode_utf8(a), encode_utf8(b), encode_utf8(tail), encode_utf8(tail));
    lemma_bytes_lt_prefix(
        encode_utf8(head),
        encode_utf8(a) + encode_utf8(tail),
        encode_utf8(b) + encode_utf8(tail),
    );
    assert(encode_utf8(head) + encode_utf8(a) + encode_utf8(tail) =~= encode_utf8(head) + (
    encode_utf8(a) + encode_utf8(tail)));
    assert(encode_utf8(head) + encode_utf8(b) + encode_utf8(tail) =~= encode_utf8(head) + (
    encode_utf8(b) + encode_utf8(tail)));
}

/// Retention: where a folder holds one backup for each of the buckets
/// `keys`, pruning it to `keep` files deletes the files of the oldest
/// buckets and keeps exactly the files of the `keep` newest.  So a folder
/// that gets a backup for a newer bucket and is pruned with each write of
/// the data holds, from the `keep`-th bucket on, exactly `keep` files: those
/// of the newest buckets.
pub proof fn lemma_retention(
    base: Seq<char>,
    keys: Seq<int>,
    existing: Seq<Seq<char>>,
    keep: nat,
    doomed: Seq<Seq<char>>,
    kept: Seq<Seq<char>>,
)
    requires
        ordered_buckets(keys),
        existing.to_multiset() == backup_names(base, keys).to_multiset(),
        doomed.len() == surplus(existing.len(), keep),
        ascending(doomed + kept),
        (doomed + kept).to_multiset() == existing.to_multiset(),
    ensures
        doomed == backup_names(base, keys.take(surplus(keys.len(), keep) as int)),
        kept == backup_names(base, keys.skip(surplus(keys.len(), keep) as int)),
        keys.len() >= keep ==> kept.len() == keep,
{
    let names = backup_names(base, keys);
    assert forall|i: int, j: int| 0 <= i < j < names.len() implies !text_lt(
        #[trigger] names[j],
        #[trigger] names[i],
    ) by {
        lemma_name_order(base, keys[i], keys[j]);
        lemma_text_lt_total(names[i], names[j]);
    }
    to_multiset_len(existing);
    to_multiset_len(names);
    to_multiset_len(doomed + kept);
    lemma_ascending_unique(doomed + kept, names);
    let cut = surplus(keys.len(), keep) as int;
    assert(doomed =~= (doomed + kept).take(cut));
    assert(kept =~= (doomed + kept).skip(cut));
    assert(names.take(cut) =~= backup_names(base, keys.take(cut)));
    assert(names.skip(cut) =~= backup_names(base, keys.skip(cut)));
}

} // verus!
