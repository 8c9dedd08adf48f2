//! Persistence codec for profiles.
//!
//! A profile is flushed as one complete snapshot: a flat sequence of 64-bit
//! words holding a format-version tag, the bucket-count configuration, and
//! the entries.  Loading checks the tag and the bucket counts against the
//! current configuration; any mismatch, truncation or malformed content
//! yields nothing, so a corrupt or stale file is treated as an absent
//! profile rather than partially reinterpreted.  The round-trip lemma at the
//! bottom states that decoding an encoded profile yields the same mapping.
//!
//! Turning the words into bytes on disk (and back) is plain I/O and stays
//! outside the library.

use crate::profile::{
    copy_key, distinct_keys, key_at, keys_equal, Profile, ProfileEntry,
};
use crate::quantize::StateKey;
use vstd::prelude::*;

verus! {

/// Schema tag; bumped when the layout or the meaning of entries changes.
pub const FORMAT_VERSION: u64 = 1;

/// The abstract content of a profile: one `(key, value, weight)` triple per
/// entry.
pub open spec fn view_of_entries(entries: Seq<ProfileEntry>) -> Seq<(Seq<u32>, u64, u64)> {
    Seq::new(
        entries.len(),
        |i: int| (entries[i].key.buckets@, entries[i].value, entries[i].weight),
    )
}

/// One encoded entry: its bucket indices, then value and weight.
pub open spec fn encode_entry(e: ProfileEntry) -> Seq<u64> {
    Seq::new(e.key.buckets@.len(), |i: int| e.key.buckets@[i] as u64) + seq![e.value, e.weight]
}

/// All entries, in order.
pub open spec fn encode_entries(entries: Seq<ProfileEntry>) -> Seq<u64>
    decreases entries.len(),
{
    if entries.len() == 0 {
        Seq::empty()
    } else {
        encode_entry(entries[0]) + encode_entries(entries.skip(1))
    }
}

/// The header: version tag, signal count, then one word per bucket count.
pub open spec fn encode_header(counts: Seq<u32>) -> Seq<u64> {
    seq![FORMAT_VERSION, counts.len() as u64] + Seq::new(counts.len(), |i: int| counts[i] as u64)
}

/// The full snapshot of a profile.
pub open spec fn encode_spec(p: Profile) -> Seq<u64> {
    encode_header(p.bucket_counts@) + encode_entries(p.entries@)
}

/// Parses the entry region: each record is `k` bucket words (each fitting a
/// 32-bit index) followed by value and weight; nothing may be left over.
pub open spec fn decode_entries(body: Seq<u64>, k: int) -> Option<Seq<(Seq<u32>, u64, u64)>>
    decreases body.len(),
{
    if k < 0 {
        None
    } else if body.len() == 0 {
        Some(Seq::empty())
    } else if body.len() < k + 2 {
        None
    } else if exists|i: int| 0 <= i < k && #[trigger] body[i] > u32::MAX as u64 {
        None
    } else {
        let keyb = Seq::new(k as nat, |i: int| body[i] as u32);
        match decode_entries(body.skip(k + 2), k) {
            Some(rest) => Some(seq![(keyb, body[k], body[k + 1])] + rest),
            None => None,
        }
    }
}

/// No two parsed records share a key.
pub open spec fn abs_distinct(s: Seq<(Seq<u32>, u64, u64)>) -> bool {
    forall|i: int, j: int| 0 <= i < j < s.len() ==> s[i].0 != s[j].0
}

/// Parses a snapshot against the current bucket-count configuration.  Any
/// header mismatch, malformed record, trailing garbage or duplicated key
/// yields `None`.
pub open spec fn decode_spec(words: Seq<u64>, counts: Seq<u32>) -> Option<
    Seq<(Seq<u32>, u64, u64)>,
> {
    let k = counts.len() as int;
    if words.len() < 2 + k {
        None
    } else if words[0] != FORMAT_VERSION {
        None
    } else if words[1] != counts.len() as u64 {
        None
    } else if exists|i: int| 0 <= i < k && #[trigger] words[2 + i] != counts[i] as u64 {
        None
    } else {
        match decode_entries(words.skip(2 + k), k) {
            Some(es) => if abs_distinct(es) {
                Some(es)
            } else {
                None
            },
            None => None,
        }
    }
}

/// Appending an entry extends the encoding on the right.
proof fn lemma_encode_entries_push(entries: Seq<ProfileEntry>, e: ProfileEntry)
    ensures
        encode_entries(entries.push(e)) == encode_entries(entries) + encode_entry(e),
    decreases entries.len(),
{
    if entries.len() == 0 {
        assert(entries.push(e)[0] == e);
        assert(entries.push(e).skip(1) =~= Seq::<ProfileEntry>::empty());
        assert(encode_entries(Seq::<ProfileEntry>::empty()) == Seq::<u64>::empty());
        assert(encode_entries(entries.push(e).skip(1)) == Seq::<u64>::empty());
        assert(encode_entries(entries.push(e)) == encode_entry(e) + Seq::<u64>::empty());
        assert(encode_entry(e) + Seq::<u64>::empty() =~= encode_entry(e));
        assert(encode_entries(entries) + encode_entry(e) =~= encode_entry(e));
    } else {
        assert(entries.push(e).skip(1) =~= entries.skip(1).push(e));
        lemma_encode_entries_push(entries.skip(1), e);
        assert(entries.push(e)[0] == entries[0]);
        assert(encode_entry(entries[0]) + (encode_entries(entries.skip(1)) + encode_entry(e))
            =~= (encode_entry(entries[0]) + encode_entries(entries.skip(1))) + encode_entry(e));
    }
}

/// Decoding inverts encoding on the entry region.
proof fn lemma_decode_encode_entries(entries: Seq<ProfileEntry>, k: int)
    requires
        k >= 0,
        forall|i: int| 0 <= i < entries.len() ==> key_at(entries, i).len() == k,
    ensures
        decode_entries(encode_entries(entries), k) == Some(view_of_entries(entries)),
    decreases entries.len(),
{
    if entries.len() == 0 {
        assert(view_of_entries(entries) =~= Seq::<(Seq<u32>, u64, u64)>::empty());
    } else {
        let e0 = entries[0];
        let enc0 = encode_entry(e0);
        let tail = encode_entries(entries.skip(1));
        let body = encode_entries(entries);
        assert(body == enc0 + tail);
        assert(key_at(entries, 0).len() == k);
        assert(enc0.len() == k + 2);
        assert(body.len() >= k + 2);
        assert forall|i: int| 0 <= i < k implies !(#[trigger] body[i] > u32::MAX as u64) by {
            assert(body[i] == enc0[i]);
            assert(enc0[i] == e0.key.buckets@[i] as u64);
        }
        let keyb = Seq::new(k as nat, |i: int| body[i] as u32);
        assert(keyb =~= e0.key.buckets@);
        assert(body[k] == enc0[k] && enc0[k] == e0.value);
        assert(body[k + 1] == enc0[k + 1] && enc0[k + 1] == e0.weight);
        assert(body.skip(k + 2) =~= tail);
        assert forall|i: int|
            0 <= i < entries.skip(1).len() implies key_at(entries.skip(1), i).len() == k by {
            assert(entries.skip(1)[i] == entries[i + 1]);
            assert(key_at(entries, i + 1).len() == k);
        }
        lemma_decode_encode_entries(entries.skip(1), k);
        assert(decode_entries(body, k) == Some(
            seq![(keyb, e0.value, e0.weight)] + view_of_entries(entries.skip(1)),
        ));
        assert(seq![(keyb, e0.value, e0.weight)] + view_of_entries(entries.skip(1))
            =~= view_of_entries(entries)) by {
            assert forall|i: int|
                1 <= i < entries.len() implies view_of_entries(entries.skip(1))[i - 1]
                == view_of_entries(entries)[i] by {
                assert(entries.skip(1)[i - 1] == entries[i]);
            }
        }
    }
}

/// Serializes a profile as one complete snapshot.
pub fn encode(p: &Profile) -> (words: Vec<u64>)
    ensures
        words@ == encode_spec(*p),
{
    let ghost counts = p.bucket_counts@;
    let mut words: Vec<u64> = Vec::new();
    words.push(FORMAT_VERSION);
    let k = p.bucket_counts.len();
    words.push(k as u64);
    let mut i: usize = 0;
    while i < k
        invariant
            k == counts.len(),
            counts == p.bucket_counts@,
            i <= k,
            words@ == seq![FORMAT_VERSION, k as u64] + Seq::new(
                i as nat,
                |j: int| counts[j] as u64,
            ),
        decreases k - i,
    {
        words.push(p.bucket_counts[i] as u64);
        proof {
            assert(words@ =~= seq![FORMAT_VERSION, k as u64] + Seq::new(
                (i + 1) as nat,
                |j: int| counts[j] as u64,
            ));
        }
        i = i + 1;
    }
    proof {
        assert(words@ =~= encode_header(counts));
        assert(words@ =~= encode_header(counts) + encode_entries(p.entries@.take(0)));
    }
    let n = p.entries.len();
    let mut e: usize = 0;
    while e < n
        invariant
            n == p.entries@.len(),
            e <= n,
            counts == p.bucket_counts@,
            words@ == encode_header(counts) + encode_entries(p.entries@.take(e as int)),
        decreases n - e,
    {
        let ghost pre = words@;
        let kl = p.entries[e].key.buckets.len();
        let mut j: usize = 0;
        while j < kl
            invariant
                e < n,
                n == p.entries@.len(),
                j <= kl,
                kl == p.entries@[e as int].key.buckets@.len(),
                words@ == pre + Seq::new(
                    j as nat,
                    |t: int| p.entries@[e as int].key.buckets@[t] as u64,
                ),
            decreases kl - j,
        {
            words.push(p.entries[e].key.buckets[j] as u64);
            proof {
                assert(words@ =~= pre + Seq::new(
                    (j + 1) as nat,
                    |t: int| p.entries@[e as int].key.buckets@[t] as u64,
                ));
            }
            j = j + 1;
        }
        words.push(p.entries[e].value);
        words.push(p.entries[e].weight);
        proof {
            assert(words@ =~= pre + encode_entry(p.entries@[e as int]));
            assert(p.entries@.take(e as int).push(p.entries@[e as int]) =~= p.entries@.take(
                e + 1,
            ));
            lemma_encode_entries_push(p.entries@.take(e as int), p.entries@[e as int]);
            assert(words@ =~= encode_header(counts) + encode_entries(p.entries@.take(e + 1)));
        }
        e = e + 1;
    }
    proof {
        assert(p.entries@.take(n as int) =~= p.entries@);
    }
    words
}

proof fn lemma_decode_spec_entries_none(words: Seq<u64>, counts: Seq<u32>)
    requires
        words.len() >= 2 + counts.len(),
        words[0] == FORMAT_VERSION,
        words[1] == counts.len() as u64,
        forall|j: int| 0 <= j < counts.len() ==> #[trigger] words[2 + j] == counts[j] as u64,
        decode_entries(words.skip(2 + counts.len() as int), counts.len() as int) is None,
    ensures
        decode_spec(words, counts) is None,
{
}

/// Parses a snapshot against the current configuration and tuning
/// parameters.  Returns the restored profile, or `None` for anything the
/// format does not exactly describe — the caller starts that device's
/// learning from scratch.
pub fn decode(
    words: &Vec<u64>,
    bucket_counts: &Vec<u32>,
    alpha_num: u64,
    alpha_den: u64,
    epsilon: u64,
) -> (r: Option<Profile>)
    requires
        1 <= alpha_num <= alpha_den,
        epsilon as int * alpha_num as int >= alpha_den as int,
    ensures
        match r {
            Some(p) => {
                &&& p.wf()
                &&& p.bucket_counts@ == bucket_counts@
                &&& p.alpha_num == alpha_num
                &&& p.alpha_den == alpha_den
                &&& p.epsilon == epsilon
                &&& decode_spec(words@, bucket_counts@) == Some(view_of_entries(p.entries@))
            },
            None => decode_spec(words@, bucket_counts@) is None,
        },
{
    let k = bucket_counts.len();
    if words.len() < 2 || words.len() - 2 < k {
        return None;
    }
    if words[0] != FORMAT_VERSION {
        return None;
    }
    if words[1] != k as u64 {
        return None;
    }
    let mut i: usize = 0;
    while i < k
        invariant
            i <= k,
            k == bucket_counts@.len(),
            k + 2 <= words@.len(),
            words@.len() <= usize::MAX,
            forall|j: int| 0 <= j < i ==> #[trigger] words@[2 + j] == bucket_counts@[j] as u64,
        decreases k - i,
    {
        if words[2 + i] != bucket_counts[i] as u64 {
            return None;
        }
        i = i + 1;
    }
    let ghost full_body = words@.skip(2 + k as int);
    let mut entries: Vec<ProfileEntry> = Vec::new();
    let mut pos: usize = 2 + k;
    proof {
        assert(words@.skip(pos as int) =~= full_body);
    }
    while pos < words.len()
        invariant
            k == bucket_counts@.len(),
            2 + k <= pos <= words@.len(),
            words@.len() <= usize::MAX,
            words@[0] == FORMAT_VERSION,
            words@[1] == k as u64,
            forall|j: int| 0 <= j < k ==> #[trigger] words@[2 + j] == bucket_counts@[j] as u64,
            full_body == words@.skip(2 + k as int),
            decode_entries(full_body, k as int) == (match decode_entries(
                words@.skip(pos as int),
                k as int,
            ) {
                Some(t) => Some(view_of_entries(entries@) + t),
                None => None::<Seq<(Seq<u32>, u64, u64)>>,
            }),
            forall|t: int| 0 <= t < entries@.len() ==> #[trigger] key_at(entries@, t).len() == k,
        decreases words@.len() - pos,
    {
        let ghost rest = words@.skip(pos as int);
        proof {
            assert(rest.len() == words@.len() - pos);
        }
        if words.len() - pos < k + 2 {
            proof {
                assert(decode_entries(rest, k as int) is None);
                assert(words@.len() >= 2 + bucket_counts@.len());
                assert(words@[1] == bucket_counts@.len() as u64);
                assert(!(exists|i2: int|
                    0 <= i2 < bucket_counts@.len() && #[trigger] words@[2 + i2]
                        != bucket_counts@[i2] as u64));
                assert(words@.skip(2 + bucket_counts@.len() as int) == full_body);
                assert(decode_entries(full_body, k as int) is None);
                lemma_decode_spec_entries_none(words@, bucket_counts@);
                assert(decode_spec(words@, bucket_counts@) is None);
            }
            return None;
        }
        let mut kb: Vec<u32> = Vec::new();
        let mut j: usize = 0;
        while j < k
            invariant
                j <= k,
                k == bucket_counts@.len(),
                2 + k <= pos,
                pos + k + 2 <= words@.len(),
                words@.len() <= usize::MAX,
                words@[0] == FORMAT_VERSION,
                words@[1] == k as u64,
                forall|t: int| 0 <= t < k ==> #[trigger] words@[2 + t] == bucket_counts@[t]
                    as u64,
                full_body == words@.skip(2 + k as int),
                decode_entries(full_body, k as int) == (match decode_entries(
                    words@.skip(pos as int),
                    k as int,
                ) {
                    Some(t) => Some(view_of_entries(entries@) + t),
                    None => None::<Seq<(Seq<u32>, u64, u64)>>,
                }),
                rest == words@.skip(pos as int),
                kb@ == Seq::new(j as nat, |t: int| words@[pos + t] as u32),
                forall|t: int| 0 <= t < j ==> #[trigger] words@[pos + t] <= u32::MAX as u64,
            decreases k - j,
        {
            let w = words[pos + j];
            if w > 0xffff_ffff {
                proof {
                    assert(rest[j as int] == words@[pos + j as int]);
                    assert(rest[j as int] > u32::MAX as u64);
                    assert(decode_entries(rest, k as int) is None);
                    lemma_decode_spec_entries_none(words@, bucket_counts@);
                    assert(decode_spec(words@, bucket_counts@) is None);
                }
                return None;
            }
            kb.push(w as u32);
            proof {
                assert(kb@ =~= Seq::new((j + 1) as nat, |t: int| words@[pos + t] as u32));
            }
            j = j + 1;
        }
        let value = words[pos + k];
        let weight = words[pos + k + 1];
        let ghost pre_entries = entries@;
        let ghost kbv = kb@;
        entries.push(ProfileEntry { key: StateKey { buckets: kb }, value, weight });
        let old_pos = pos;
        pos = pos + k + 2;
        proof {
            assert(entries@.len() == pre_entries.len() + 1);
            assert(key_at(entries@, pre_entries.len() as int) == kbv);
            assert(kbv.len() == k);
            assert forall|t: int|
                0 <= t < entries@.len() implies #[trigger] key_at(entries@, t).len() == k by {
                if t < pre_entries.len() {
                    assert(entries@[t] == pre_entries[t]);
                    assert(key_at(pre_entries, t).len() == k);
                }
            }
            let keyb = Seq::new(k as nat, |t: int| rest[t] as u32);
            assert forall|t: int| 0 <= t < k implies rest[t] == words@[old_pos + t] by {}
            assert(keyb =~= kbv);
            assert(!(exists|t: int| 0 <= t < k && #[trigger] rest[t] > u32::MAX as u64));
            assert(rest[k as int] == value && rest[k as int + 1] == weight);
            assert(rest.skip(k as int + 2) =~= words@.skip(pos as int));
            let head = (kbv, value, weight);
            assert(decode_entries(rest, k as int) == (match decode_entries(
                words@.skip(pos as int),
                k as int,
            ) {
                Some(t2) => Some(seq![head] + t2),
                None => None::<Seq<(Seq<u32>, u64, u64)>>,
            }));
            if decode_entries(words@.skip(pos as int), k as int) is Some {
                let t2 = decode_entries(words@.skip(pos as int), k as int).unwrap();
                assert(view_of_entries(pre_entries) + (seq![head] + t2) =~= view_of_entries(
                    entries@,
                ) + t2) by {
                    assert forall|t: int|
                        0 <= t < entries@.len() implies view_of_entries(entries@)[t] == (
                    if t < pre_entries.len() {
                        view_of_entries(pre_entries)[t]
                    } else {
                        head
                    }) by {
                        if t < pre_entries.len() {
                            assert(entries@[t] == pre_entries[t]);
                        }
                    }
                }
            }
        }
    }
    proof {
        assert(words@.skip(pos as int) =~= Seq::<u64>::empty());
        assert(decode_entries(words@.skip(pos as int), k as int) == Some(
            Seq::<(Seq<u32>, u64, u64)>::empty(),
        ));
        assert(view_of_entries(entries@) + Seq::<(Seq<u32>, u64, u64)>::empty() =~= view_of_entries(
            entries@,
        ));
        assert(decode_entries(full_body, k as int) == Some(view_of_entries(entries@)));
    }
    // reject duplicated keys: the snapshot does not describe a valid profile
    let n = entries.len();
    let mut a: usize = 1;
    while a < n
        invariant
            n == entries@.len(),
            1 <= a,
            n == 0 || a <= n,
            k == bucket_counts@.len(),
            words@.len() >= 2 + k,
            words@[0] == FORMAT_VERSION,
            words@[1] == k as u64,
            forall|j: int| 0 <= j < k ==> #[trigger] words@[2 + j] == bucket_counts@[j] as u64,
            full_body == words@.skip(2 + k as int),
            decode_entries(full_body, k as int) == Some(view_of_entries(entries@)),
            forall|t: int| 0 <= t < entries@.len() ==> #[trigger] key_at(entries@, t).len() == k,
            forall|ii: int, jj: int|
                0 <= ii < jj < a ==> key_at(entries@, ii) != key_at(entries@, jj),
        decreases n - a,
    {
        let mut b: usize = 0;
        while b < a
            invariant
                n == entries@.len(),
                b <= a < n,
                k == bucket_counts@.len(),
                words@.len() >= 2 + k,
                words@[0] == FORMAT_VERSION,
                words@[1] == k as u64,
                forall|j: int| 0 <= j < k ==> #[trigger] words@[2 + j] == bucket_counts@[j]
                    as u64,
                full_body == words@.skip(2 + k as int),
                decode_entries(full_body, k as int) == Some(view_of_entries(entries@)),
                forall|jj: int| 0 <= jj < b ==> key_at(entries@, jj) != key_at(entries@, a as int),
            decreases a - b,
        {
            if keys_equal(&entries[b].key.buckets, &entries[a].key.buckets) {
                proof {
                    let es = view_of_entries(entries@);
                    assert(es[b as int].0 == key_at(entries@, b as int));
                    assert(es[a as int].0 == key_at(entries@, a as int));
                    assert(!abs_distinct(es));
                    assert(decode_spec(words@, bucket_counts@) is None);
                }
                return None;
            }
            b = b + 1;
        }
        proof {
            assert forall|ii: int, jj: int|
                0 <= ii < jj < a + 1 implies key_at(entries@, ii) != key_at(entries@, jj) by {
                if jj == a as int {
                    assert(key_at(entries@, ii) != key_at(entries@, a as int));
                }
            }
        }
        a = a + 1;
    }
    proof {
        assert(distinct_keys(entries@));
        let es = view_of_entries(entries@);
        assert forall|ii: int, jj: int| 0 <= ii < jj < es.len() implies es[ii].0 != es[jj].0 by {
            assert(es[ii].0 == key_at(entries@, ii));
            assert(es[jj].0 == key_at(entries@, jj));
        }
        assert(abs_distinct(es));
        assert(decode_spec(words@, bucket_counts@) == Some(es));
    }
    let restored = Profile {
        bucket_counts: copy_key(bucket_counts),
        entries,
        alpha_num,
        alpha_den,
        epsilon,
    };
    Some(restored)
}

/// Persistence round-trip: decoding an encoded profile, against the same
/// bucket-count configuration, yields exactly the mapping that was saved —
/// the same keys with the same values and weights, in the same order.
pub proof fn lemma_profile_round_trip(p: Profile)
    requires
        p.wf(),
    ensures
        decode_spec(encode_spec(p), p.bucket_counts@) == Some(view_of_entries(p.entries@)),
{
    let counts = p.bucket_counts@;
    let k = counts.len() as int;
    let header = encode_header(counts);
    let body = encode_entries(p.entries@);
    let words = encode_spec(p);
    assert(words == header + body);
    assert(header.len() == 2 + k);
    assert(words[0] == header[0] && header[0] == FORMAT_VERSION);
    assert(words[1] == header[1] && header[1] == counts.len() as u64);
    assert forall|i: int| 0 <= i < k implies !(#[trigger] words[2 + i] != counts[i] as u64) by {
        assert(words[2 + i] == header[2 + i]);
        assert(header[2 + i] == Seq::new(counts.len(), |j: int| counts[j] as u64)[i]);
    }
    assert(words.skip(2 + k) =~= body);
    lemma_decode_encode_entries(p.entries@, k);
    let es = view_of_entries(p.entries@);
    assert(abs_distinct(es)) by {
        assert forall|i: int, j: int| 0 <= i < j < es.len() implies es[i].0 != es[j].0 by {
            assert(es[i].0 == key_at(p.entries@, i));
            assert(es[j].0 == key_at(p.entries@, j));
        }
    }
}

} // verus!
