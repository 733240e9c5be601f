//! Folding `..` out of a path, on the path's components.
use vstd::prelude::*;

verus! {

/// One component of a path.
pub enum PathPart {
    /// A drive or share prefix.
    Prefix(String),
    /// The root separator.
    Root,
    /// A leading `.`.
    CurDir,
    /// `..`.
    ParentDir,
    Normal(String),
}

/// Dropping the last component, as taking a path's parent does: a path that
/// ends in its root or prefix, or is empty, has no parent and stays as it is.
pub open spec fn spec_pop(acc: Seq<PathPart>) -> Seq<PathPart> {
    if acc.len() > 0 && (acc.last() is Normal || acc.last() is CurDir || acc.last() is ParentDir) {
        acc.drop_last()
    } else {
        acc
    }
}

/// The components with every `..` folded into its parent: each `..` drops the
/// component before it, and every other component is kept.
pub open spec fn spec_normalized(parts: Seq<PathPart>) -> Seq<PathPart>
    decreases parts.len(),
{
    if parts.len() == 0 {
        Seq::empty()
    } else {
        let acc = spec_normalized(parts.drop_last());
        if parts.last() is ParentDir {
            spec_pop(acc)
        } else {
            acc.push(parts.last())
        }
    }
}

/// A folded path holds no `..`.
pub proof fn law_normalized_has_no_parent_dir(parts: Seq<PathPart>)
    ensures
        forall|i: int| 0 <= i < spec_normalized(parts).len() ==> !(#[trigger] spec_normalized(parts)[i] is ParentDir),
    decreases parts.len(),
{
    if parts.len() > 0 {
        law_normalized_has_no_parent_dir(parts.drop_last());
    }
}

/// Folding works one component at a time: an empty path stays empty; any
/// component but `..` is appended as it is; a `..` removes the last kept
/// component when that is a name or a `.`, and is dropped when the path kept so
/// far is empty or ends at its root or prefix. A path without `..` is kept
/// whole.
pub proof fn law_fold_parent_dirs(parts: Seq<PathPart>, x: PathPart)
    ensures
        spec_normalized(Seq::empty()) == Seq::<PathPart>::empty(),
        !(x is ParentDir) ==> spec_normalized(parts.push(x)) == spec_normalized(parts).push(x),
        ({
            let n = spec_normalized(parts);
            &&& (x is ParentDir && n.len() > 0 && (n.last() is Normal || n.last() is CurDir))
                ==> spec_normalized(parts.push(x)) == n.take(n.len() - 1)
            &&& (x is ParentDir && (n.len() == 0 || n.last() is Root || n.last() is Prefix))
                ==> spec_normalized(parts.push(x)) == n
        }),
        (forall|i: int| 0 <= i < parts.len() ==> !(#[trigger] parts[i] is ParentDir)) ==> spec_normalized(parts)
            == parts,
    decreases parts.len(),
{
    assert(parts.push(x).drop_last() =~= parts);
    if parts.len() > 0 {
        law_fold_parent_dirs(parts.drop_last(), parts.last());
        if forall|i: int| 0 <= i < parts.len() ==> !(#[trigger] parts[i] is ParentDir) {
            assert(!(parts[parts.len() - 1] is ParentDir));
            assert forall|i: int| 0 <= i < parts.drop_last().len() implies !(
            #[trigger] parts.drop_last()[i] is ParentDir) by {
                assert(parts.drop_last()[i] == parts[i]);
            }
            assert(parts.drop_last().push(parts.last()) =~= parts);
        }
    }
    let n = spec_normalized(parts);
    if n.len() > 0 {
        assert(n.take(n.len() - 1) =~= n.drop_last());
    }
}

/// The path's components with `..` folded into the parent before it.
pub fn normalize_parts(parts: Vec<PathPart>) -> (out: Vec<PathPart>)
    ensures
        out@ == spec_normalized(parts@),
{
    let ghost whole = parts@;
    let mut rest = parts;
    let mut acc: Vec<PathPart> = Vec::new();
    let n: usize = rest.len();
    let mut i: usize = 0;
    while i < n
        invariant
            n == whole.len(),
            i <= n,
            rest@ == whole.skip(i as int),
            acc@ == spec_normalized(whole.take(i as int)),
        decreases n - i,
    {
        let part = rest.remove(0);
        proof {
            assert(part == whole[i as int]);
            assert(rest@ =~= whole.skip(i + 1));
            assert(whole.take(i + 1).drop_last() =~= whole.take(i as int));
            assert(whole.take(i + 1).last() == part);
        }
        let is_parent: bool = match &part {
            PathPart::ParentDir => true,
            _ => false,
        };
        if is_parent {
            let poppable: bool = if acc.len() > 0 {
                match &acc[acc.len() - 1] {
                    PathPart::Normal(_) | PathPart::CurDir | PathPart::ParentDir => true,
                    _ => false,
                }
            } else {
                false
            };
            if poppable {
                acc.pop();
            }
        } else {
            acc.push(part);
        }
        i = i + 1;
    }
    assert(whole.take(n as int) =~= whole);
    acc
}

} // verus!
