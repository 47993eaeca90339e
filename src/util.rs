use vstd::prelude::*;
use vstd::string::StringSliceAdditionalSpecFns;

verus! {

/// The rolling hash of a byte string: each byte is added to 31 times the
/// hash so far, modulo 2^32.
pub open spec fn color_hash(bytes: Seq<u8>) -> u32
    decreases bytes.len(),
{
    if bytes.len() == 0 {
        0
    } else {
        ((color_hash(bytes.drop_last()) as int * 31 + bytes.last() as int) % 0x1_0000_0000) as u32
    }
}

/// A colour channel kept out of the darkest and lightest quarters.
pub open spec fn clamp_channel(c: int) -> u8 {
    if c < 64 {
        64
    } else if c > 192 {
        192
    } else {
        c as u8
    }
}

fn clamp_byte(c: u32) -> (r: u8)
    ensures
        r == clamp_channel(c as int),
{
    if c < 64 {
        64
    } else if c > 192 {
        192
    } else {
        c as u8
    }
}

/// A stable colour for a string: the red, green and blue bytes of its hash,
/// each clamped to `[64, 192]`.
pub fn string_to_color(s: &str) -> (rgb: (u8, u8, u8))
    ensures
        rgb == (
            clamp_channel((color_hash(s.spec_bytes()) as int / 0x1_0000) % 0x100),
            clamp_channel((color_hash(s.spec_bytes()) as int / 0x100) % 0x100),
            clamp_channel(color_hash(s.spec_bytes()) as int % 0x100),
        ),
{
    let bytes = s.as_bytes();
    let mut hash: u32 = 0;
    let mut i: usize = 0;
    while i < bytes.len()
        invariant
            i <= bytes@.len(),
            bytes@ == s.spec_bytes(),
            hash == color_hash(bytes@.subrange(0, i as int)),
        decreases bytes.len() - i,
    {
        assert(bytes@.subrange(0, i + 1).drop_last() =~= bytes@.subrange(0, i as int));
        hash = hash.wrapping_mul(31).wrapping_add(bytes[i] as u32);
        i += 1;
    }
    assert(bytes@.subrange(0, i as int) =~= bytes@);
    (clamp_byte((hash / 0x1_0000) % 0x100), clamp_byte((hash / 0x100) % 0x100), clamp_byte(hash % 0x100))
}

/// The usage recorded for `category` (0 if it has none).
pub open spec fn usage_of(s: Seq<(Seq<char>, usize)>, category: Seq<char>) -> int
    decreases s.len(),
{
    if s.len() == 0 {
        0
    } else if s.last().0 == category {
        s.last().1 as int
    } else {
        usage_of(s.drop_last(), category)
    }
}

/// The sum of all recorded usage.
pub open spec fn usage_total(s: Seq<(Seq<char>, usize)>) -> int
    decreases s.len(),
{
    if s.len() == 0 {
        0
    } else {
        usage_total(s.drop_last()) + s.last().1
    }
}

pub open spec fn has_category(s: Seq<(Seq<char>, usize)>, category: Seq<char>) -> bool {
    exists|j: int| 0 <= j < s.len() && s[j].0 == category
}

/// Byte usage per category, each category listed once in the order it was
/// first seen.
pub struct MemoryTracker {
    allocations: Vec<(String, usize)>,
}

impl View for MemoryTracker {
    type V = Seq<(Seq<char>, usize)>;

    closed spec fn view(&self) -> Seq<(Seq<char>, usize)> {
        self.allocations@.map_values(|e: (String, usize)| (e.0@, e.1))
    }
}

impl MemoryTracker {
    /// No category appears twice.
    pub open spec fn wf(&self) -> bool {
        forall|i: int, j: int|
            0 <= i < self@.len() && 0 <= j < self@.len() && i != j ==> self@[i].0 != self@[j].0
    }

    pub fn new() -> (t: MemoryTracker)
        ensures
            t.wf(),
            t@ == Seq::<(Seq<char>, usize)>::empty(),
    {
        let t = MemoryTracker { allocations: Vec::new() };
        assert(t@ =~= Seq::<(Seq<char>, usize)>::empty());
        t
    }

    fn position(&self, category: &String) -> (r: Option<usize>)
        ensures
            r matches Some(j) ==> j < self@.len() && self@[j as int].0 == category@,
            r is None ==> !has_category(self@, category@),
    {
        let mut j: usize = 0;
        while j < self.allocations.len()
            invariant
                j <= self@.len(),
                self@.len() == self.allocations@.len(),
                forall|k: int| 0 <= k < j ==> self@[k].0 != category@,
            decreases self.allocations.len() - j,
        {
            if self.allocations[j].0 == *category {
                return Some(j);
            }
            j += 1;
        }
        None
    }

    proof fn lemma_usage_at(s: Seq<(Seq<char>, usize)>, j: int)
        requires
            0 <= j < s.len(),
            forall|a: int, b: int| 0 <= a < s.len() && 0 <= b < s.len() && a != b ==> s[a].0 != s[b].0,
        ensures
            usage_of(s, s[j].0) == s[j].1,
        decreases s.len(),
    {
        if j < s.len() - 1 {
            assert(s.drop_last()[j] == s[j]);
            Self::lemma_usage_at(s.drop_last(), j);
        }
    }

    proof fn lemma_usage_absent(s: Seq<(Seq<char>, usize)>, c: Seq<char>)
        requires
            !has_category(s, c),
        ensures
            usage_of(s, c) == 0,
        decreases s.len(),
    {
        if s.len() > 0 {
            assert(s.last() == s[s.len() - 1]);
            assert(!has_category(s.drop_last(), c)) by {
                if has_category(s.drop_last(), c) {
                    let j = choose|j: int| 0 <= j < s.drop_last().len() && s.drop_last()[j].0 == c;
                    assert(s[j] == s.drop_last()[j]);
                }
            }
            Self::lemma_usage_absent(s.drop_last(), c);
        }
    }

    /// Usage of one category after writing `(category, value)` at `j`.
    proof fn lemma_usage_update(s: Seq<(Seq<char>, usize)>, j: int, value: usize, c: Seq<char>)
        requires
            0 <= j < s.len(),
        ensures
            usage_of(s.update(j, (s[j].0, value)), c) == if c == s[j].0 && (forall|k: int| j < k < s.len() ==> s[k].0 != c) {
                value as int
            } else {
                usage_of(s, c)
            },
        decreases s.len(),
    {
        let u = s.update(j, (s[j].0, value));
        if j == s.len() - 1 {
            assert(u.drop_last() =~= s.drop_last());
        } else {
            assert(u.drop_last() =~= s.drop_last().update(j, (s[j].0, value)));
            Self::lemma_usage_update(s.drop_last(), j, value, c);
            assert(s.drop_last()[j] == s[j]);
            if c == s[j].0 && (forall|k: int| j < k < s.drop_last().len() ==> s.drop_last()[k].0 != c) && s.last().0 != c {
                assert forall|k: int| j < k < s.len() implies s[k].0 != c by {
                    if k < s.len() - 1 {
                        assert(s.drop_last()[k] == s[k]);
                    }
                }
            }
            if forall|k: int| j < k < s.len() ==> s[k].0 != c {
                assert forall|k: int| j < k < s.drop_last().len() implies s.drop_last()[k].0 != c by {
                    assert(s.drop_last()[k] == s[k]);
                }
            }
        }
    }

    /// Adds `size` bytes to the usage of `category`.
    pub fn track_allocation(&mut self, category: &str, size: usize)
        requires
            old(self).wf(),
            usage_of(old(self)@, category@) + size <= usize::MAX,
        ensures
            final(self).wf(),
            forall|c: Seq<char>|
                #[trigger] usage_of(final(self)@, c) == usage_of(old(self)@, c) + if c == category@ {
                    size as int
                } else {
                    0
                },
            has_category(old(self)@, category@) ==> final(self)@.len() == old(self)@.len(),
            !has_category(old(self)@, category@) ==> final(self)@ == old(self)@.push((category@, size)),
    {
        let key = category.to_owned();
        let ghost pre = self@;
        match self.position(&key) {
            Some(j) => {
                let cur = self.allocations[j].1;
                proof {
                    Self::lemma_usage_at(pre, j as int);
                }
                self.allocations.set(j, (key, cur + size));
                proof {
                    assert(self@ =~= pre.update(j as int, (pre[j as int].0, (cur + size) as usize)));
                    assert forall|c: Seq<char>| #[trigger] usage_of(self@, c) == usage_of(pre, c) + if c == category@ {
                        size as int
                    } else {
                        0
                    } by {
                        Self::lemma_usage_update(pre, j as int, (cur + size) as usize, c);
                        if c == category@ {
                            assert forall|k: int| j < k < pre.len() implies pre[k].0 != c by {
                                assert(pre[k].0 != pre[j as int].0);
                            }
                        }
                    }
                    assert forall|a: int, b: int| 0 <= a < self@.len() && 0 <= b < self@.len() && a != b
                        implies self@[a].0 != self@[b].0 by {
                        assert(self@[a].0 == pre[a].0 && self@[b].0 == pre[b].0);
                    }
                }
            },
            None => {
                proof {
                    Self::lemma_usage_absent(pre, key@);
                }
                self.allocations.push((key, size));
                proof {
                    assert(self@ =~= pre.push((category@, size)));
                    assert(self@.drop_last() =~= pre);
                    assert forall|a: int, b: int| 0 <= a < self@.len() && 0 <= b < self@.len() && a != b
                        implies self@[a].0 != self@[b].0 by {
                        if a < pre.len() && b < pre.len() {
                            assert(self@[a] == pre[a] && self@[b] == pre[b]);
                        } else if a < pre.len() {
                            assert(self@[a] == pre[a]);
                        } else {
                            assert(self@[b] == pre[b]);
                        }
                    }
                }
            },
        }
    }

    /// Takes up to `size` bytes off the usage of `category`, stopping at 0;
    /// a category never seen is left alone.
    pub fn track_deallocation(&mut self, category: &str, size: usize)
        requires
            old(self).wf(),
        ensures
            final(self).wf(),
            final(self)@.len() == old(self)@.len(),
            forall|c: Seq<char>|
                #[trigger] usage_of(final(self)@, c) == if c == category@ {
                    if usage_of(old(self)@, c) >= size {
                        usage_of(old(self)@, c) - size
                    } else {
                        0
                    }
                } else {
                    usage_of(old(self)@, c)
                },
    {
        let key = category.to_owned();
        let ghost pre = self@;
        match self.position(&key) {
            Some(j) => {
                let cur = self.allocations[j].1;
                proof {
                    Self::lemma_usage_at(pre, j as int);
                }
                let left = cur.saturating_sub(size);
                self.allocations.set(j, (key, left));
                proof {
                    assert(self@ =~= pre.update(j as int, (pre[j as int].0, left)));
                    assert forall|c: Seq<char>| #[trigger] usage_of(self@, c) == if c == category@ {
                        if usage_of(pre, c) >= size {
                            usage_of(pre, c) - size
                        } else {
                            0
                        }
                    } else {
                        usage_of(pre, c)
                    } by {
                        Self::lemma_usage_update(pre, j as int, left, c);
                        if c == category@ {
                            assert forall|k: int| j < k < pre.len() implies pre[k].0 != c by {
                                assert(pre[k].0 != pre[j as int].0);
                            }
                        }
                    }
                    assert forall|a: int, b: int| 0 <= a < self@.len() && 0 <= b < self@.len() && a != b
                        implies self@[a].0 != self@[b].0 by {
                        assert(self@[a].0 == pre[a].0 && self@[b].0 == pre[b].0);
                    }
                }
            },
            None => {
                proof {
                    Self::lemma_usage_absent(pre, key@);
                }
            },
        }
    }

    /// The sum of the usage of every category.
    pub fn get_total_usage(&self) -> (total: usize)
        requires
            usage_total(self@) <= usize::MAX,
        ensures
            total == usage_total(self@),
    {
        let ghost all = self@;
        let mut total: usize = 0;
        let mut i: usize = 0;
        while i < self.allocations.len()
            invariant
                all == self@,
                all.len() == self.allocations@.len(),
                i <= all.len(),
                usage_total(all) <= usize::MAX,
                total == usage_total(all.subrange(0, i as int)),
            decreases self.allocations.len() - i,
        {
            assert(all.subrange(0, i + 1).drop_last() =~= all.subrange(0, i as int));
            proof {
                Self::lemma_total_prefix(all, i + 1);
            }
            total = total + self.allocations[i].1;
            i += 1;
        }
        assert(all.subrange(0, i as int) =~= all);
        total
    }

    proof fn lemma_total_prefix(s: Seq<(Seq<char>, usize)>, n: int)
        requires
            0 <= n <= s.len(),
        ensures
            usage_total(s.subrange(0, n)) <= usage_total(s),
        decreases s.len(),
    {
        if n < s.len() {
            assert(s.drop_last().subrange(0, n) =~= s.subrange(0, n));
            Self::lemma_total_prefix(s.drop_last(), n);
        } else {
            assert(s.subrange(0, n) =~= s);
        }
    }

    /// The usage of each category, in the order the categories were first
    /// seen.
    pub fn get_usage_by_category(&self) -> (r: &Vec<(String, usize)>)
        ensures
            r@.map_values(|e: (String, usize)| (e.0@, e.1)) == self@,
    {
        &self.allocations
    }
}

} // verus!
