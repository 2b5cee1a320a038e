use vstd::prelude::*;

verus! {

/// The contents of several files, each as a byte sequence.
pub open spec fn contents_of(parts: Seq<Vec<u8>>) -> Seq<Seq<u8>> {
    parts.map_values(|p: Vec<u8>| p@)
}

/// The lengths of all the byte sequences in `parts`, added up.
pub open spec fn total_length(parts: Seq<Seq<u8>>) -> nat
    decreases parts.len(),
{
    if parts.len() == 0 {
        0
    } else {
        parts[0].len() + total_length(parts.drop_first())
    }
}

/// Joins the contents of a directory's entries, in the order in which they
/// were listed, into one buffer.
pub fn join_parts(parts: &Vec<Vec<u8>>) -> (r: Vec<u8>)
    ensures
        r@ == contents_of(parts@).flatten(),
{
    let mut r: Vec<u8> = Vec::new();
    let mut i: usize = 0;
    while i < parts.len()
        invariant
            i <= parts@.len(),
            r@ == contents_of(parts@.take(i as int)).flatten(),
        decreases parts@.len() - i,
    {
        let part = &parts[i];
        let ghost before = r@;
        let mut j: usize = 0;
        while j < part.len()
            invariant
                j <= part@.len(),
                r@ == before + part@.take(j as int),
            decreases part@.len() - j,
        {
            r.push(part[j]);
            j = j + 1;
            assert(r@ =~= before + part@.take(j as int));
        }
        proof {
            let done = contents_of(parts@.take(i as int));
            assert(contents_of(parts@.take(i as int + 1)) =~= done.push(part@));
            done.lemma_flatten_push(part@);
            assert(part@.take(part@.len() as int) =~= part@);
        }
        i = i + 1;
    }
    assert(parts@.take(parts@.len() as int) =~= parts@);
    r
}

proof fn lemma_flatten_length(parts: Seq<Seq<u8>>)
    ensures
        parts.flatten().len() == total_length(parts),
    decreases parts.len(),
{
    if parts.len() > 0 {
        lemma_flatten_length(parts.drop_first());
    }
}

proof fn lemma_total_length_remove(parts: Seq<Seq<u8>>, j: int)
    requires
        0 <= j < parts.len(),
    ensures
        total_length(parts) == total_length(parts.remove(j)) + parts[j].len(),
    decreases j,
{
    if j == 0 {
        assert(parts.remove(0) =~= parts.drop_first());
    } else {
        lemma_total_length_remove(parts.drop_first(), j - 1);
        assert(parts.remove(j).drop_first() =~= parts.drop_first().remove(j - 1));
        assert(parts.remove(j)[0] == parts[0]);
    }
}

proof fn lemma_total_length_reordered(parts: Seq<Seq<u8>>, listed: Seq<Seq<u8>>)
    requires
        listed.to_multiset() == parts.to_multiset(),
    ensures
        total_length(listed) == total_length(parts),
    decreases parts.len(),
{
    broadcast use vstd::seq_lib::group_to_multiset_ensures;

    if parts.len() == 0 {
        vstd::seq_lib::to_multiset_len(listed);
        vstd::seq_lib::to_multiset_len(parts);
    } else {
        let first = parts[0];
        assert(parts.to_multiset().count(first) > 0) by {
            assert(parts.contains(first));
        }
        assert(listed.contains(first));
        let j = choose|j: int| 0 <= j < listed.len() && listed[j] == first;
        assert(parts.remove(0) =~= parts.drop_first());
        assert(listed.remove(j).to_multiset() == parts.drop_first().to_multiset());
        lemma_total_length_reordered(parts.drop_first(), listed.remove(j));
        lemma_total_length_remove(listed, j);
    }
}

/// Whatever order a directory lists its files in, joining their contents
/// gives a buffer whose length is the sum of the files' lengths.
pub proof fn lemma_join_length_any_order(files: Seq<Seq<u8>>, listed: Seq<Seq<u8>>)
    requires
        listed.to_multiset() == files.to_multiset(),
    ensures
        listed.flatten().len() == total_length(files),
{
    lemma_flatten_length(listed);
    lemma_total_length_reordered(files, listed);
}

} // verus!
