use vstd::prelude::*;

verus! {

/// Number of slots in a count table: one per possible byte value.
pub const TABLE_SIZE: usize = 256;

/// How many times the byte `b` occurs in `s`.
pub open spec fn occurrences(s: Seq<u8>, b: u8) -> nat
    decreases s.len(),
{
    if s.len() == 0 {
        0
    } else {
        occurrences(s.drop_last(), b) + if s.last() == b {
            1nat
        } else {
            0nat
        }
    }
}

/// A byte never occurs more often than the sequence is long.
pub proof fn lemma_occurrences_bounded(s: Seq<u8>, b: u8)
    ensures
        occurrences(s, b) <= s.len(),
    decreases s.len(),
{
    if s.len() > 0 {
        lemma_occurrences_bounded(s.drop_last(), b);
    }
}

/// Sum of all counts in a table.
pub open spec fn count_total(counts: Seq<usize>) -> int
    decreases counts.len(),
{
    if counts.len() == 0 {
        0
    } else {
        count_total(counts.drop_last()) + counts.last()
    }
}

/// Occurrences in `s` of the bytes below `n`, added up.
pub open spec fn occurrences_below(s: Seq<u8>, n: nat) -> nat
    decreases n,
{
    if n == 0 {
        0
    } else {
        occurrences_below(s, (n - 1) as nat) + occurrences(s, (n - 1) as u8)
    }
}

proof fn lemma_occurrences_below_push(s: Seq<u8>, x: u8, n: nat)
    requires
        n <= TABLE_SIZE,
    ensures
        occurrences_below(s.push(x), n) == occurrences_below(s, n) + if (x as nat) < n {
            1nat
        } else {
            0nat
        },
    decreases n,
{
    if n > 0 {
        lemma_occurrences_below_push(s, x, (n - 1) as nat);
        assert(s.push(x).drop_last() =~= s);
    }
}

proof fn lemma_occurrences_below_empty(s: Seq<u8>, n: nat)
    requires
        s.len() == 0,
    ensures
        occurrences_below(s, n) == 0,
    decreases n,
{
    if n > 0 {
        lemma_occurrences_below_empty(s, (n - 1) as nat);
    }
}

proof fn lemma_occurrences_below_all(s: Seq<u8>)
    ensures
        occurrences_below(s, TABLE_SIZE as nat) == s.len(),
    decreases s.len(),
{
    if s.len() == 0 {
        lemma_occurrences_below_empty(s, TABLE_SIZE as nat);
    } else {
        let t = s.drop_last();
        lemma_occurrences_below_all(t);
        lemma_occurrences_below_push(t, s.last(), TABLE_SIZE as nat);
        assert(t.push(s.last()) =~= s);
    }
}

/// The counts of a table produced for `content` add up to the length of
/// `content`: every byte is counted exactly once.
pub proof fn lemma_counts_sum_to_length(content: Seq<u8>, counts: Seq<usize>)
    requires
        counts.len() == TABLE_SIZE,
        forall|b: u8| #[trigger] counts[b as int] == occurrences(content, b),
    ensures
        count_total(counts) == content.len(),
{
    assert forall|n: nat| n <= TABLE_SIZE implies #[trigger] count_total(counts.take(n as int))
        == occurrences_below(content, n) by {
        lemma_prefix_total(content, counts, n);
    }
    assert(counts.take(TABLE_SIZE as int) =~= counts);
    lemma_occurrences_below_all(content);
}

proof fn lemma_prefix_total(content: Seq<u8>, counts: Seq<usize>, n: nat)
    requires
        n <= TABLE_SIZE,
        counts.len() == TABLE_SIZE,
        forall|b: u8| #[trigger] counts[b as int] == occurrences(content, b),
    ensures
        count_total(counts.take(n as int)) == occurrences_below(content, n),
    decreases n,
{
    if n > 0 {
        lemma_prefix_total(content, counts, (n - 1) as nat);
        assert(counts.take(n as int).drop_last() =~= counts.take(n - 1));
        let b = (n - 1) as u8;
        assert(counts[b as int] == occurrences(content, b));
    }
}

/// Counts every byte of `content`: slot `b` of the result holds the number of
/// occurrences of byte `b`, and bytes that do not occur have count zero.
pub fn count_chars(content: &Vec<u8>) -> (r: Vec<usize>)
    ensures
        r@.len() == TABLE_SIZE,
        forall|b: u8| #[trigger] r@[b as int] == occurrences(content@, b),
{
    let mut counts: Vec<usize> = Vec::new();
    let mut k: usize = 0;
    while k < TABLE_SIZE
        invariant
            k <= TABLE_SIZE,
            counts@.len() == k,
            forall|j: int| 0 <= j < k ==> #[trigger] counts@[j] == 0,
        decreases TABLE_SIZE - k,
    {
        counts.push(0);
        k = k + 1;
    }
    let mut i: usize = 0;
    while i < content.len()
        invariant
            i <= content@.len(),
            counts@.len() == TABLE_SIZE,
            forall|b: u8|
                #[trigger] counts@[b as int] == occurrences(content@.subrange(0, i as int), b),
        decreases content@.len() - i,
    {
        let x = content[i];
        let ghost before = content@.subrange(0, i as int);
        let ghost after = content@.subrange(0, i as int + 1);
        assert(after.drop_last() =~= before);
        proof {
            lemma_occurrences_bounded(before, x);
        }
        let c = counts[x as usize];
        counts.set(x as usize, c + 1);
        i = i + 1;
        assert forall|b: u8| #[trigger] counts@[b as int] == occurrences(after, b) by {
            if b != x {
                assert(counts@[b as int] == occurrences(before, b));
            }
        }
    }
    assert(content@.subrange(0, content@.len() as int) =~= content@);
    counts
}

/// `b` is the byte recorded for count `c`: it occurs exactly `c > 0` times in
/// `s`, and no larger byte value occurs that often.
pub open spec fn is_winner(s: Seq<u8>, c: nat, b: u8) -> bool {
    &&& c > 0
    &&& occurrences(s, b) == c
    &&& forall|b2: u8| b < b2 ==> #[trigger] occurrences(s, b2) != c
}

/// The byte that a character stands for, when its code is below 256.
pub open spec fn byte_of(ch: char) -> u8 {
    (ch as u32) as u8
}

/// The entry `(c, ch)` holds a character that stands for a byte, and that
/// byte is the one recorded for count `c` in the frequency map of `s`.
pub open spec fn records_winner(s: Seq<u8>, entry: (usize, char)) -> bool {
    &&& (entry.1 as u32) < 256
    &&& is_winner(s, entry.0 as nat, byte_of(entry.1))
}

/// The counts of `e` strictly increase from one entry to the next.
pub open spec fn ascending(e: Seq<(usize, char)>) -> bool {
    forall|i: int, j: int| 0 <= i < j < e.len() ==> #[trigger] e[i].0 < #[trigger] e[j].0
}

/// `e` is the frequency map of `s`: its keys are exactly the positive
/// occurrence counts of `s`, in ascending order, and each key maps to the
/// character of the largest byte that occurs that many times.
pub open spec fn is_frequency_map_of(s: Seq<u8>, e: Seq<(usize, char)>) -> bool {
    &&& ascending(e)
    &&& forall|i: int| 0 <= i < e.len() ==> #[trigger] records_winner(s, e[i])
    &&& forall|b: u8|
        #[trigger] occurrences(s, b) > 0 ==> exists|i: int|
            0 <= i < e.len() && #[trigger] e[i].0 == occurrences(s, b)
}

/// The map that a list of entries describes; a later entry for the same
/// count takes the place of an earlier one.
pub open spec fn entries_map(e: Seq<(usize, char)>) -> Map<usize, char>
    decreases e.len(),
{
    if e.len() == 0 {
        Map::empty()
    } else {
        entries_map(e.drop_last()).insert(e.last().0, e.last().1)
    }
}

/// A list of entries with strictly increasing counts describes a map that
/// holds every entry and nothing else.
pub proof fn lemma_entries_map_holds_entries(e: Seq<(usize, char)>)
    requires
        ascending(e),
    ensures
        forall|c: usize|
            #[trigger] entries_map(e).contains_key(c) <==> exists|i: int| 0 <= i < e.len() && e[i].0 == c,
        forall|i: int| 0 <= i < e.len() ==> #[trigger] entries_map(e)[e[i].0] == e[i].1,
    decreases e.len(),
{
    if e.len() > 0 {
        let t = e.drop_last();
        lemma_entries_map_holds_entries(t);
        assert forall|c: usize| #[trigger] entries_map(e).contains_key(c) implies exists|i: int|
            0 <= i < e.len() && e[i].0 == c by {
            if c != e.last().0 {
                assert(entries_map(t).contains_key(c));
                let i = choose|i: int| 0 <= i < t.len() && t[i].0 == c;
                assert(e[i] == t[i]);
            } else {
                assert(e[e.len() - 1].0 == c);
            }
        }
        assert forall|i: int| 0 <= i < e.len() implies #[trigger] entries_map(e)[e[i].0] == e[i].1 by {
            if i < e.len() - 1 {
                assert(e[i] == t[i]);
                assert(e[i].0 < e[e.len() - 1].0);
                assert(entries_map(t).contains_key(t[i].0));
                assert(entries_map(t)[t[i].0] == t[i].1);
            }
        }
        assert forall|c: usize| (exists|i: int| 0 <= i < e.len() && e[i].0 == c) implies #[trigger] entries_map(
            e,
        ).contains_key(c) by {
            let i = choose|i: int| 0 <= i < e.len() && e[i].0 == c;
            if i < e.len() - 1 {
                assert(t[i] == e[i]);
                assert(entries_map(t).contains_key(t[i].0));
            }
        }
    }
}

/// A mapping from occurrence count to one character, kept in ascending order
/// of count; each count appears at most once.
pub struct FrequencyMap {
    entries: Vec<(usize, char)>,
}

impl View for FrequencyMap {
    type V = Seq<(usize, char)>;

    closed spec fn view(&self) -> Seq<(usize, char)> {
        self.entries@
    }
}

impl FrequencyMap {
    /// The counts of a frequency map are unique and kept in ascending order.
    #[verifier::type_invariant]
    spec fn counts_ascend(&self) -> bool {
        ascending(self.entries@)
    }

    /// Number of entries, one per distinct count.
    pub fn len(&self) -> (r: usize)
        ensures
            r == self@.len(),
            ascending(self@),
    {
        proof {
            use_type_invariant(self);
        }
        self.entries.len()
    }

    /// The character recorded for `count`, if any.
    pub fn get(&self, count: usize) -> (r: Option<char>)
        ensures
            r matches Some(ch) ==> exists|i: int| 0 <= i < self@.len() && #[trigger] self@[i] == (count, ch),
            r is None ==> forall|i: int| 0 <= i < self@.len() ==> #[trigger] self@[i].0 != count,
            ascending(self@),
    {
        proof {
            use_type_invariant(self);
        }
        let mut i: usize = 0;
        while i < self.entries.len()
            invariant
                i <= self@.len(),
                self.entries@ == self@,
                forall|j: int| 0 <= j < i ==> #[trigger] self@[j].0 != count,
                ascending(self@),
            decreases self@.len() - i,
        {
            let (c, ch) = self.entries[i];
            if c == count {
                assert(self@[i as int] == (count, ch));
                return Some(ch);
            }
            i = i + 1;
        }
        None
    }

    /// The entries, in ascending order of count.
    pub fn entries(&self) -> (r: Vec<(usize, char)>)
        ensures
            r@ == self@,
            ascending(self@),
    {
        proof {
            use_type_invariant(self);
        }
        let mut r: Vec<(usize, char)> = Vec::new();
        let mut i: usize = 0;
        while i < self.entries.len()
            invariant
                i <= self@.len(),
                self.entries@ == self@,
                r@ == self@.take(i as int),
            decreases self@.len() - i,
        {
            r.push(self.entries[i]);
            i = i + 1;
            assert(r@ =~= self@.take(i as int));
        }
        assert(self@.take(self@.len() as int) =~= self@);
        r
    }
}

/// A byte occurs a positive number of times exactly when the sequence holds it.
pub proof fn lemma_occurs_iff_contains(s: Seq<u8>, b: u8)
    ensures
        occurrences(s, b) > 0 <==> s.contains(b),
    decreases s.len(),
{
    if s.len() > 0 {
        let t = s.drop_last();
        lemma_occurs_iff_contains(t, b);
        if t.contains(b) {
            let k = choose|k: int| 0 <= k < t.len() && t[k] == b;
            assert(s[k] == b);
        }
        if s.contains(b) && s.last() != b {
            let k = choose|k: int| 0 <= k < s.len() && s[k] == b;
            assert(t[k] == b);
        }
    }
}

/// When no two distinct bytes of `s` occur equally often, nothing collides:
/// the frequency map of `s` has exactly one entry per distinct byte of `s`,
/// and its counts strictly increase from entry to entry.
pub proof fn lemma_distinct_counts_keep_every_char(s: Seq<u8>, e: Seq<(usize, char)>)
    requires
        is_frequency_map_of(s, e),
        forall|b1: u8, b2: u8|
            b1 != b2 && s.contains(b1) && s.contains(b2) ==> #[trigger] occurrences(s, b1)
                != #[trigger] occurrences(s, b2),
    ensures
        e.len() == s.to_set().len(),
        forall|i: int, j: int| 0 <= i < j < e.len() ==> #[trigger] e[i].0 < #[trigger] e[j].0,
{
    let bytes = e.map_values(|entry: (usize, char)| byte_of(entry.1));
    assert forall|i: int| 0 <= i < e.len() implies #[trigger] occurrences(s, bytes[i]) == e[i].0 && s.contains(
        bytes[i],
    ) by {
        assert(records_winner(s, e[i]));
        lemma_occurs_iff_contains(s, bytes[i]);
    }
    assert(bytes.no_duplicates()) by {
        assert forall|i: int, j: int|
            0 <= i < bytes.len() && 0 <= j < bytes.len() && i != j implies bytes[i] != bytes[j] by {
            assert(occurrences(s, bytes[i]) == e[i].0);
            assert(occurrences(s, bytes[j]) == e[j].0);
            if i < j {
                assert(e[i].0 < e[j].0);
            } else {
                assert(e[j].0 < e[i].0);
            }
        }
    }
    assert(bytes.to_set() =~= s.to_set()) by {
        assert forall|b: u8| s.contains(b) implies bytes.contains(b) by {
            lemma_occurs_iff_contains(s, b);
            let i = choose|i: int| 0 <= i < e.len() && #[trigger] e[i].0 == occurrences(s, b);
            assert(occurrences(s, bytes[i]) == e[i].0);
            assert(bytes[i] == b);
        }
        assert forall|b: u8| bytes.contains(b) implies s.contains(b) by {
            let i = choose|i: int| 0 <= i < bytes.len() && bytes[i] == b;
            assert(occurrences(s, bytes[i]) == e[i].0);
        }
    }
    bytes.unique_seq_to_set();
}

/// Finds the smallest count in `counts` that exceeds `last`, together with the
/// largest byte that has it.
fn smallest_count_above(counts: &Vec<usize>, last: usize, Ghost(s): Ghost<Seq<u8>>) -> (r: Option<(usize, u8)>)
    requires
        counts@.len() == TABLE_SIZE,
        forall|b: u8| #[trigger] counts@[b as int] == occurrences(s, b),
    ensures
        r is None ==> forall|b: u8| #[trigger] occurrences(s, b) <= last,
        r matches Some((best, who)) ==> {
            &&& last < best
            &&& best == occurrences(s, who)
            &&& forall|b: u8|
                #[trigger] occurrences(s, b) > last ==> best <= occurrences(s, b) && (occurrences(s, b)
                    == best ==> b <= who)
        },
{
    let mut found = false;
    let mut best: usize = 0;
    let mut who: u8 = 0;
    let mut k: usize = 0;
    while k < TABLE_SIZE
        invariant
            k <= TABLE_SIZE,
            counts@.len() == TABLE_SIZE,
            forall|b: u8| #[trigger] counts@[b as int] == occurrences(s, b),
            found ==> last < best && best == occurrences(s, who) && (who as int) < k,
            found ==> forall|b2: u8|
                (b2 as int) < k && #[trigger] occurrences(s, b2) > last ==> best <= occurrences(s, b2)
                    && (occurrences(s, b2) == best ==> b2 <= who),
            !found ==> forall|b2: u8| (b2 as int) < k ==> #[trigger] occurrences(s, b2) <= last,
        decreases TABLE_SIZE - k,
    {
        let b = k as u8;
        assert(b as int == k);
        let c = counts[k];
        assert(c == occurrences(s, b));
        if c > last {
            if !found || c < best {
                found = true;
                best = c;
                who = b;
            } else if c == best {
                who = b;
            }
        }
        k = k + 1;
    }
    if found {
        Some((best, who))
    } else {
        None
    }
}

/// Builds the frequency map of `content`: each occurrence count that some byte
/// has becomes a key, in ascending order. Where several bytes share a count,
/// only one survives, the largest byte value among them.
pub fn scan_file(content: Vec<u8>) -> (r: FrequencyMap)
    ensures
        is_frequency_map_of(content@, r@),
{
    let ghost s = content@;
    let counts = count_chars(&content);
    let mut entries: Vec<(usize, char)> = Vec::new();
    let mut last: usize = 0;
    loop
        invariant
            s == content@,
            counts@.len() == TABLE_SIZE,
            forall|b: u8| #[trigger] counts@[b as int] == occurrences(s, b),
            last <= s.len(),
            ascending(entries@),
            forall|i: int| 0 <= i < entries@.len() ==> #[trigger] records_winner(s, entries@[i]),
            forall|i: int| 0 <= i < entries@.len() ==> #[trigger] entries@[i].0 <= last,
            forall|b: u8|
                0 < #[trigger] occurrences(s, b) <= last ==> exists|i: int|
                    0 <= i < entries@.len() && #[trigger] entries@[i].0 == occurrences(s, b),
        decreases s.len() - last,
    {
        let next = smallest_count_above(&counts, last, Ghost(s));
        if next.is_none() {
            assert forall|b: u8|
                #[trigger] occurrences(s, b) > 0 implies exists|i: int|
                    0 <= i < entries@.len() && #[trigger] entries@[i].0 == occurrences(s, b) by {
                assert(occurrences(s, b) <= last);
            }
            return FrequencyMap { entries };
        }
        let (best, who) = next.unwrap();
        proof {
            lemma_occurrences_bounded(s, who);
        }
        let ch = who as char;
        assert(ch as u32 == who as u32);
        let ghost old_entries = entries@;
        let ghost old_last = last;
        entries.push((best, ch));
        last = best;
        assert forall|i: int| 0 <= i < entries@.len() implies #[trigger] records_winner(s, entries@[i]) by {
            if i < old_entries.len() {
                assert(entries@[i] == old_entries[i]);
            }
        }
        assert forall|b: u8|
            0 < #[trigger] occurrences(s, b) <= last implies exists|i: int|
                0 <= i < entries@.len() && #[trigger] entries@[i].0 == occurrences(s, b) by {
            if occurrences(s, b) > old_last {
                assert(entries@[old_entries.len() as int].0 == occurrences(s, b));
            } else {
                let i = choose|i: int|
                    0 <= i < old_entries.len() && #[trigger] old_entries[i].0 == occurrences(s, b);
                assert(entries@[i] == old_entries[i]);
            }
        }
    }
}

} // verus!
