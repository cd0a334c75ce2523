//! The destination policy: from a root-entry cardinality to a destination.

use vstd::prelude::*;

verus! {

/// How many entries sit at the archive's top level: none, exactly one, or
/// several.
#[derive(Clone, Copy, Debug, PartialEq, Eq, Structural)]
pub enum Root {
    Zero,
    Single,
    Multiple,
}

/// The cardinality category of a root-entry count.
pub open spec fn classify(n: nat) -> Root {
    if n == 0 {
        Root::Zero
    } else if n == 1 {
        Root::Single
    } else {
        Root::Multiple
    }
}

/// Index of the dot that separates a file name's stem from its final
/// extension: the last `.` (byte 46) at a position past the first byte, or
/// -1 when there is none — the name has no dot at all, or only a leading
/// one, as in a dotfile.
pub open spec fn stem_split(name: Seq<u8>) -> int
    decreases name.len(),
{
    if name.len() <= 1 {
        -1
    } else if name.last() == 46u8 {
        name.len() - 1
    } else {
        stem_split(name.drop_last())
    }
}

/// The file stem: the name unchanged when no dot separates an extension,
/// otherwise everything before the separating dot.
pub open spec fn stem_of(name: Seq<u8>) -> Seq<u8> {
    if stem_split(name) < 0 {
        name
    } else {
        name.take(stem_split(name))
    }
}

/// The separating dot found at `m`: a dot past the first byte with no dot
/// after it.
pub proof fn lemma_stem_split_at(name: Seq<u8>, m: int)
    requires
        1 <= m < name.len(),
        name[m] == 46u8,
        forall|t: int| m < t < name.len() ==> name[t] != 46u8,
    ensures
        stem_split(name) == m,
    decreases name.len(),
{
    if name.last() == 46u8 {
        assert(m == name.len() - 1);
    } else {
        assert(m < name.len() - 1);
        assert(name.drop_last()[m] == name[m]);
        assert forall|t: int| m < t < name.drop_last().len() implies name.drop_last()[t]
            != 46u8 by {
            assert(name.drop_last()[t] == name[t]);
        }
        lemma_stem_split_at(name.drop_last(), m);
    }
}

/// No dot past the first byte: there is no separating dot.
pub proof fn lemma_stem_split_none(name: Seq<u8>)
    requires
        forall|t: int| 1 <= t < name.len() ==> name[t] != 46u8,
    ensures
        stem_split(name) == -1,
    decreases name.len(),
{
    if name.len() <= 1 {
    } else {
        assert(name.last() == name[name.len() - 1]);
        assert forall|t: int| 1 <= t < name.drop_last().len() implies name.drop_last()[t]
            != 46u8 by {
            assert(name.drop_last()[t] == name[t]);
        }
        lemma_stem_split_none(name.drop_last());
    }
}

/// Compute the file stem of an archive's file name.
pub fn file_stem(name: &[u8]) -> (stem: Vec<u8>)
    requires
        name@.len() > 0,
    ensures
        stem@ == stem_of(name@),
        stem@.len() > 0,
{
    let len = name.len();
    let mut split: usize = 0;  // position of the separating dot; 0 when none seen yet
    let mut k: usize = 1;
    while k < len
        invariant
            1 <= k <= len || len <= 1,
            len == name@.len(),
            split == 0 ==> forall|t: int| 1 <= t < k ==> name@[t] != 46u8,
            split != 0 ==> 1 <= split < k <= len && name@[split as int] == 46u8
                && forall|t: int| split < t < k ==> name@[t] != 46u8,
        decreases len - k,
    {
        if name[k] == 46 {
            split = k;
        }
        k += 1;
    }
    proof {
        if split == 0 {
            lemma_stem_split_none(name@);
        } else {
            lemma_stem_split_at(name@, split as int);
        }
    }
    let stem_end: usize = if split == 0 {
        len
    } else {
        split
    };
    let mut stem: Vec<u8> = Vec::new();
    let mut t: usize = 0;
    while t < stem_end
        invariant
            t <= stem_end <= name@.len(),
            stem@.len() == t,
            forall|u: int| 0 <= u < t ==> stem@[u] == name@[u],
        decreases stem_end - t,
    {
        stem.push(name[t]);
        t += 1;
    }
    proof {
        assert(stem@ =~= stem_of(name@));
    }
    stem
}

/// The current working directory as the extraction tool receives it: the
/// bytes of `./`.
pub open spec fn working_dir() -> Seq<u8> {
    seq![46u8, 47u8]
}

/// The destination a cardinality category selects: none for an archive
/// without root entries, the working directory when the single root entry
/// may land there as it is, and a directory named after the archive's stem
/// when several entries would otherwise spill into the working directory.
pub open spec fn destination_spec(root: Root, name: Seq<u8>) -> Option<Seq<u8>> {
    match root {
        Root::Zero => None,
        Root::Single => Some(working_dir()),
        Root::Multiple => Some(stem_of(name)),
    }
}

/// Choose the extraction destination for an archive called `name`, probed
/// to the cardinality `root`. `None`: nothing is to be extracted.
pub fn destination_for(root: Root, name: &[u8]) -> (dest: Option<Vec<u8>>)
    requires
        root is Multiple ==> name@.len() > 0,
    ensures
        dest is None <==> root is Zero,
        dest matches Some(d) ==> Some(d@) == destination_spec(root, name@),
{
    match root {
        Root::Zero => None,
        Root::Single => {
            let mut d: Vec<u8> = Vec::new();
            d.push(46);
            d.push(47);
            proof {
                assert(d@ =~= working_dir());
            }
            Some(d)
        },
        Root::Multiple => Some(file_stem(name)),
    }
}

/// What a captured listing decides for an archive called `name`: the
/// destination under the listing's own root cardinality.
pub open spec fn decision_spec(output: Seq<u8>, name: Seq<u8>) -> Option<Seq<u8>> {
    destination_spec(classify(crate::listing::root_entry_count(output)), name)
}

/// The whole decision for one archive: classify the captured listing
/// output and choose the destination. `None`: no extraction is invoked.
pub fn decide_extraction(output: &[u8], name: &[u8]) -> (dest: Option<Vec<u8>>)
    requires
        name@.len() > 0,
    ensures
        dest is None <==> crate::listing::root_entry_count(output@) == 0,
        dest matches Some(d) ==> Some(d@) == decision_spec(output@, name@),
{
    let root = crate::listing::probe_listing(output);
    destination_for(root, name)
}

/// An archive with no root entries gets no destination: nothing is
/// extracted.
pub proof fn lemma_zero_roots_no_destination(output: Seq<u8>, name: Seq<u8>)
    requires
        crate::listing::root_entry_count(output) == 0,
    ensures
        decision_spec(output, name) is None,
{
}

/// A single root entry extracts into the working directory, whatever the
/// archive is called.
pub proof fn lemma_single_root_destination(output: Seq<u8>, name1: Seq<u8>, name2: Seq<u8>)
    requires
        crate::listing::root_entry_count(output) == 1,
    ensures
        decision_spec(output, name1) == Some(working_dir()),
        decision_spec(output, name1) == decision_spec(output, name2),
{
}

/// Two or more root entries extract into a directory named after the
/// archive's stem, whatever the listed entries are called.
pub proof fn lemma_multiple_roots_destination(out1: Seq<u8>, out2: Seq<u8>, name: Seq<u8>)
    requires
        crate::listing::root_entry_count(out1) >= 2,
        crate::listing::root_entry_count(out2) >= 2,
    ensures
        decision_spec(out1, name) == Some(stem_of(name)),
        decision_spec(out1, name) == decision_spec(out2, name),
{
}

} // verus!
