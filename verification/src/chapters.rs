//! Chapter lists: distinct chapter starts in order with their labels, and the
//! chapter at or next to a position. Start times are handed in as order keys,
//! non-negative integers that order as the times do.
use vstd::prelude::*;
use crate::metadata::{single_line_metadata, single_line_spec};
use crate::text::{chars_of, decimal, decimal_spec, push_chars, push_str, string_of, to_uppercase, uppercase_seq};

verus! {

/// A chapter as read from the container: its start key and title.
pub type Entry = (u64, Option<String>);

/// The label of chapter `index` of `count`: its number, and its title on one
/// line in upper case when there is one.
pub open spec fn label_spec(index: nat, count: nat, title: Option<Seq<char>>) -> Seq<char> {
    let head = "CHAPTER "@ + decimal_spec(index + 1) + " / "@ + decimal_spec(count);
    match title {
        Some(t) => if single_line_spec(t).len() > 0 {
            head + " \u{2014} "@ + uppercase_seq(single_line_spec(t))
        } else {
            head
        },
        None => head,
    }
}

/// Position of the first entry with start `key`.
pub open spec fn first_with(entries: Seq<Entry>, key: u64, i: int) -> bool {
    &&& 0 <= i < entries.len()
    &&& entries[i].0 == key
    &&& forall|j: int| 0 <= j < i ==> #[trigger] entries[j].0 != key
}

pub open spec fn title_view(t: Option<String>) -> Option<Seq<char>> {
    match t {
        Some(s) => Some(s@),
        None => None,
    }
}

/// The chapters of a media file.
pub struct Chapters {
    pub starts: Vec<u64>,
    pub labels: Vec<String>,
    /// The position of the last explicit seek, kept until playback passes it.
    pub seek_floor: Option<u64>,
}

impl Chapters {
    /// Starts strictly increase and each has a label.
    pub open spec fn wf(&self) -> bool {
        &&& self.starts@.len() == self.labels@.len()
        &&& forall|i: int, j: int| 0 <= i < j < self.starts@.len() ==> self.starts@[i] < self.starts@[j]
    }

    /// The chapters of `entries`: each distinct start once, in order, labelled
    /// with the title of the first entry that has it.
    pub fn from_entries(entries: Vec<Entry>) -> (r: Self)
        ensures
            r.wf(),
            r.seek_floor is None,
            forall|e: int|
                #![trigger entries@[e]]
                0 <= e < entries@.len() ==> r.starts@.contains(entries@[e].0),
            forall|i: int|
                #![trigger r.starts@[i]]
                0 <= i < r.starts@.len() ==> exists|e: int|
                    #![trigger entries@[e]]
                    first_with(entries@, r.starts@[i], e) && r.labels@[i]@ == label_spec(
                        i as nat,
                        r.starts@.len() as nat,
                        title_view(entries@[e].1),
                    ),
    {
        let mut starts: Vec<u64> = Vec::new();
        let mut firsts: Vec<usize> = Vec::new();
        let mut previous: Option<u64> = None;
        loop
            invariant
                starts@.len() == firsts@.len(),
                starts@.len() <= entries@.len(),
                forall|i: int, j: int| 0 <= i < j < starts@.len() ==> starts@[i] < starts@[j],
                forall|i: int| 0 <= i < starts@.len() ==> first_with(entries@, starts@[i], #[trigger] firsts@[i] as int),
                previous is None <==> starts@.len() == 0,
                previous matches Some(p) ==> p == starts@.last(),
                forall|e: int|
                    #![trigger entries@[e]]
                    0 <= e < entries@.len() && (previous matches Some(p) && entries@[e].0 <= p) ==> starts@.contains(entries@[e].0),
            ensures
                starts@.len() == firsts@.len(),
                forall|i: int, j: int| 0 <= i < j < starts@.len() ==> starts@[i] < starts@[j],
                forall|i: int| 0 <= i < starts@.len() ==> first_with(entries@, starts@[i], #[trigger] firsts@[i] as int),
                forall|e: int|
                    #![trigger entries@[e]]
                    0 <= e < entries@.len() ==> starts@.contains(entries@[e].0),
            decreases entries@.len() - starts@.len(),
        {
            // The smallest start after the previous one, and where it first occurs.
            let mut best: Option<(u64, usize)> = None;
            let mut k: usize = 0;
            while k < entries.len()
                invariant
                    k <= entries@.len(),
                    best matches Some((key, at)) ==> {
                        &&& at < k
                        &&& entries@[at as int].0 == key
                        &&& (previous matches Some(p) ==> key > p)
                        &&& forall|j: int| 0 <= j < at ==> #[trigger] entries@[j].0 != key
                        &&& forall|j: int| 0 <= j < k && (previous matches Some(p) ==> entries@[j].0 > p) ==> key <= #[trigger] entries@[j].0
                    },
                    best is None ==> forall|j: int| 0 <= j < k ==> (previous matches Some(p) && #[trigger] entries@[j].0 <= p),
                decreases entries@.len() - k,
            {
                let key = entries[k].0;
                let after = match previous {
                    Some(p) => key > p,
                    None => true,
                };
                if after {
                    match best {
                        Some((b, _)) => {
                            if key < b {
                                best = Some((key, k));
                            }
                        },
                        None => {
                            best = Some((key, k));
                        },
                    }
                }
                k = k + 1;
            }
            match best {
                None => {
                    proof {
                        assert forall|e: int|
                            #![trigger entries@[e]]
                            0 <= e < entries@.len() implies starts@.contains(entries@[e].0) by {
                            assert(previous matches Some(p) && entries@[e].0 <= p);
                        }
                    }
                    break;
                },
                Some((key, at)) => {
                    proof {
                        // Every chapter start found so far is at most the previous one.
                        assert forall|i: int| 0 <= i < starts@.len() implies starts@[i] < key by {
                            if i < starts@.len() - 1 {
                                assert(starts@[i] < starts@.last());
                            }
                        }
                        assert(starts@.len() < entries@.len()) by {
                            assert forall|i: int| 0 <= i < starts@.len() implies (#[trigger] firsts@[i]) != at by {
                                assert(first_with(entries@, starts@[i], firsts@[i] as int));
                            }
                            lemma_distinct_positions(firsts@, entries@.len() as int, starts@, entries@, at as int);
                        }
                    }
                    let ghost old_starts = starts@;
                    let ghost old_previous = previous;
                    starts.push(key);
                    firsts.push(at);
                    previous = Some(key);
                    proof {
                        assert forall|e: int|
                            #![trigger entries@[e]]
                            0 <= e < entries@.len() && entries@[e].0 <= key implies starts@.contains(entries@[e].0) by {
                            if old_previous matches Some(p) && entries@[e].0 <= p {
                                let i = choose|i: int| 0 <= i < old_starts.len() && old_starts[i] == entries@[e].0;
                                assert(starts@[i] == old_starts[i]);
                            } else {
                                assert(key <= entries@[e].0);
                                assert(starts@[old_starts.len() as int] == key);
                                assert(starts@.contains(key));
                            }
                        }
                    }
                },
            }
        }
        let count = starts.len();
        let mut labels: Vec<String> = Vec::new();
        let mut i: usize = 0;
        while i < count
            invariant
                count == starts@.len(),
                starts@.len() == firsts@.len(),
                forall|j: int| 0 <= j < starts@.len() ==> first_with(entries@, starts@[j], #[trigger] firsts@[j] as int),
                i <= count,
                labels@.len() == i,
                forall|e: int|
                    #![trigger entries@[e]]
                    0 <= e < entries@.len() ==> starts@.contains(entries@[e].0),
                forall|a: int, b: int| 0 <= a < b < starts@.len() ==> starts@[a] < starts@[b],
                forall|j: int| 0 <= j < i ==> #[trigger] labels@[j]@ == label_spec(j as nat, count as nat, title_view(entries@[firsts@[j] as int].1)),
            decreases count - i,
        {
            let label = chapter_label(i, count, &entries[firsts[i]].1);
            labels.push(label);
            i = i + 1;
        }
        let r = Chapters { starts, labels, seek_floor: None };
        proof {
            assert forall|i: int| #![trigger r.starts@[i]] 0 <= i < r.starts@.len() implies exists|e: int|
                #![trigger entries@[e]]
                first_with(entries@, r.starts@[i], e) && r.labels@[i]@ == label_spec(
                    i as nat,
                    r.starts@.len() as nat,
                    title_view(entries@[e].1),
                ) by {
                let e = firsts@[i] as int;
                assert(first_with(entries@, starts@[i], e));
                assert(labels@[i]@ == label_spec(i as nat, count as nat, title_view(entries@[e].1)));
                assert(entries@[e] == entries@[e]);
            }
        }
        r
    }
}

/// Chapter `i` is the one playing at `position`: the last one starting at or
/// before it.
pub open spec fn is_current(starts: Seq<u64>, position: u64, i: int) -> bool {
    0 <= i < starts.len() && starts[i] <= position && (i + 1 == starts.len() || starts[i + 1] > position)
}

/// `position` is before every chapter.
pub open spec fn before_all(starts: Seq<u64>, position: u64) -> bool {
    starts.len() == 0 || starts[0] > position
}

/// The start of chapter `i`, if there is one.
pub open spec fn start_at(starts: Seq<u64>, i: int) -> Option<u64> {
    if 0 <= i < starts.len() { Some(starts[i]) } else { None }
}

impl Chapters {
    /// The label of chapter `index`.
    pub fn label(&self, index: usize) -> (r: Option<&str>)
        requires
            self.wf(),
        ensures
            match r {
                Some(l) => index < self.labels@.len() && l@ == self.labels@[index as int]@,
                None => index >= self.labels@.len(),
            },
    {
        if index < self.labels.len() {
            Some(self.labels[index].as_str())
        } else {
            None
        }
    }

    /// Records an explicit seek to `position` (none when the requested time
    /// was not a number), replacing the earlier one.
    pub fn seeked(&mut self, position: Option<u64>)
        ensures
            final(self).seek_floor == position,
            final(self).starts == old(self).starts,
            final(self).labels == old(self).labels,
    {
        self.seek_floor = position;
    }

    /// The position used to pick the chapter: a decoded frame may start
    /// before the requested seek position, so the seek position counts until
    /// playback reaches it.
    pub fn playback_position(&self, position: u64) -> (r: u64)
        ensures
            r == match self.seek_floor {
                Some(floor) => if position < floor { floor } else { position },
                None => position,
            },
    {
        match self.seek_floor {
            Some(floor) => if position < floor { floor } else { position },
            None => position,
        }
    }

    /// The chapter playing at `position`: the last one starting at or before
    /// it, if any.
    pub fn current(&self, position: u64) -> (r: Option<usize>)
        requires
            self.wf(),
        ensures
            match r {
                Some(i) => is_current(self.starts@, position, i as int),
                None => before_all(self.starts@, position),
            },
    {
        let mut count: usize = 0;
        while count < self.starts.len() && self.starts[count] <= position
            invariant
                self.wf(),
                count <= self.starts@.len(),
                forall|j: int| 0 <= j < count ==> self.starts@[j] <= position,
            decreases self.starts@.len() - count,
        {
            count = count + 1;
        }
        if count == 0 {
            None
        } else {
            Some(count - 1)
        }
    }

    /// The start of the chapter to jump to from `position`: the next chapter
    /// going forward (the first when before all), the previous one going
    /// back; none past either end.
    pub fn target(&self, position: u64, forward: bool) -> (r: Option<u64>)
        requires
            self.wf(),
        ensures
            before_all(self.starts@, position) ==> r == (if forward { start_at(self.starts@, 0) } else { None }),
            forall|i: int| #[trigger] is_current(self.starts@, position, i) ==> r == (if forward {
                start_at(self.starts@, i + 1)
            } else {
                start_at(self.starts@, i - 1)
            }),
    {
        let current = self.current(position);
        let n = self.starts.len();
        proof {
            lemma_current_unique(self.starts@, position);
        }
        let index = if forward {
            match current {
                Some(i) => i + 1,
                None => 0,
            }
        } else {
            match current {
                Some(i) => {
                    if i >= 1 {
                        i - 1
                    } else {
                        return None;
                    }
                },
                None => return None,
            }
        };
        if index < self.starts.len() {
            Some(self.starts[index])
        } else {
            None
        }
    }
}

/// In increasing starts, at most one chapter is current, and none is when
/// the position is before all.
pub proof fn lemma_current_unique(starts: Seq<u64>, position: u64)
    requires
        forall|i: int, j: int| 0 <= i < j < starts.len() ==> starts[i] < starts[j],
    ensures
        forall|i: int, j: int| #[trigger] is_current(starts, position, i) && #[trigger] is_current(starts, position, j) ==> i == j,
        forall|i: int| #[trigger] is_current(starts, position, i) ==> !before_all(starts, position),
{
    assert forall|i: int, j: int| #[trigger] is_current(starts, position, i) && #[trigger] is_current(starts, position, j) implies i == j by {
        if i < j {
            assert(starts[i + 1] <= starts[j]);
        } else if j < i {
            assert(starts[j + 1] <= starts[i]);
        }
    }
    assert forall|i: int| #[trigger] is_current(starts, position, i) implies !before_all(starts, position) by {
        if i > 0 {
            assert(starts[0] < starts[i]);
        }
    }
}

/// Distinct chapter starts come from distinct first positions, so there are
/// fewer of them than entries while one more is found.
proof fn lemma_distinct_positions(firsts: Seq<usize>, n: int, starts: Seq<u64>, entries: Seq<Entry>, fresh: int)
    requires
        firsts.len() == starts.len(),
        n == entries.len(),
        0 <= fresh < n,
        forall|i: int| 0 <= i < starts.len() ==> first_with(entries, starts[i], #[trigger] firsts[i] as int),
        forall|i: int, j: int| 0 <= i < j < starts.len() ==> starts[i] < starts[j],
        forall|i: int| 0 <= i < starts.len() ==> (#[trigger] firsts[i]) != fresh,
    ensures
        starts.len() < n,
{
    let positions = firsts.map_values(|p: usize| p as int).to_set();
    let all = Set::new(|p: int| 0 <= p < n);
    assert forall|i: int, j: int| 0 <= i < j < firsts.len() implies firsts[i] != firsts[j] by {
        assert(first_with(entries, starts[i], firsts[i] as int));
        assert(first_with(entries, starts[j], firsts[j] as int));
    }
    let mapped = firsts.map_values(|p: usize| p as int);
    assert forall|i: int, j: int| 0 <= i < j < mapped.len() implies mapped[i] != mapped[j] by {
        assert(firsts[i] != firsts[j]);
    }
    assert(mapped.no_duplicates());
    mapped.unique_seq_to_set();
    assert(positions.subset_of(all.remove(fresh))) by {
        assert forall|p: int| positions.contains(p) implies all.remove(fresh).contains(p) by {
            let i = choose|i: int| 0 <= i < mapped.len() && mapped[i] == p;
            assert(first_with(entries, starts[i], firsts[i] as int));
        }
    }
    assert(all =~= Set::new(|p: int| 0 <= p < n));
    vstd::set_lib::lemma_int_range(0, n);
    assert(all =~= vstd::set_lib::set_int_range(0, n));
    vstd::set_lib::lemma_len_subset(positions, all.remove(fresh));
}

/// The label of chapter `index` of `count` with title `title`.
fn chapter_label(index: usize, count: usize, title: &Option<String>) -> (r: String)
    requires
        index < count,
    ensures
        r@ == label_spec(index as nat, count as nat, title_view(*title)),
{
    proof {
        reveal_strlit("CHAPTER ");
        reveal_strlit(" / ");
        reveal_strlit(" \u{2014} ");
    }
    let mut out: Vec<char> = Vec::new();
    push_str(&mut out, "CHAPTER ");
    let number = decimal((index + 1) as u64);
    push_chars(&mut out, number.as_slice());
    push_str(&mut out, " / ");
    let total = decimal(count as u64);
    push_chars(&mut out, total.as_slice());
    match title {
        Some(t) => {
            let line = single_line_metadata(t.as_str());
            let chars = chars_of(line.as_str());
            if chars.len() > 0 {
                push_str(&mut out, " \u{2014} ");
                let upper = to_uppercase(chars.as_slice());
                push_chars(&mut out, upper.as_slice());
            }
        },
        None => {},
    }
    string_of(out.as_slice())
}

} // verus!
