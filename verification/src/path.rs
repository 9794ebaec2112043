//! Unix paths as byte strings, read component by component.
use crate::split::split_on;
use vstd::prelude::*;

verus! {

/// The byte that separates components.
pub const SLASH: u8 = 0x2f;

/// The byte that, alone, names the directory itself.
pub const DOT: u8 = 0x2e;

/// Whether a piece between slashes is a component: empty pieces and single
/// dots are not.
pub open spec fn is_component(piece: Seq<u8>) -> bool {
    piece.len() > 0 && piece != seq![DOT]
}

/// What stands before the ordinary components: a slash for an absolute path,
/// a dot for a relative one that starts with a dot.
pub open spec fn leading_component(raw: Seq<u8>) -> Seq<Seq<u8>> {
    if raw.len() > 0 && raw[0] == SLASH {
        seq![seq![SLASH]]
    } else if split_on(raw, SLASH)[0] == seq![DOT] {
        seq![seq![DOT]]
    } else {
        Seq::empty()
    }
}

/// The components of a path. Repeated and trailing slashes, and dots that do
/// not come first, leave no trace; a double dot is a component like any other.
/// Two paths are the same when their components are.
pub open spec fn components(raw: Seq<u8>) -> Seq<Seq<u8>> {
    leading_component(raw) + split_on(raw, SLASH).filter(|piece: Seq<u8>| is_component(piece))
}

/// `name` placed below `dir`: an absolute `name` stands alone, and a slash is
/// put between the two where `dir` does not end in one.
pub open spec fn joined(dir: Seq<u8>, name: Seq<u8>) -> Seq<u8> {
    if name.len() > 0 && name[0] == SLASH {
        name
    } else if dir.len() == 0 || dir.last() == SLASH {
        dir + name
    } else {
        dir.push(SLASH) + name
    }
}

/// Whether `path` is `base` or lies somewhere below it.
pub open spec fn is_under(path: Seq<u8>, base: Seq<u8>) -> bool {
    components(base).is_prefix_of(components(path))
}

/// What a directory can list: a name that is not empty, holds no slash and
/// is neither `.` nor `..`.
pub open spec fn is_file_name(name: Seq<u8>) -> bool {
    &&& name.len() > 0
    &&& !name.contains(SLASH)
    &&& name != seq![DOT]
    &&& name != seq![DOT, DOT]
}

/// The direct child of `root` that is `path` or an ancestor of it, if `path`
/// lies below `root`.
pub open spec fn direct_child(root: Seq<u8>, path: Seq<u8>) -> Option<Seq<u8>> {
    let base = components(root);
    let all = components(path);
    if base.is_prefix_of(all) && base.len() < all.len() {
        Some(joined(root, all[base.len() as int]))
    } else {
        None
    }
}

/// The last component, if it is a name: not a slash, a dot or a double dot.
pub open spec fn final_name(raw: Seq<u8>) -> Option<Seq<u8>> {
    let all = components(raw);
    if all.len() > 0 && all.last() != seq![SLASH] && all.last() != seq![DOT] && all.last()
        != seq![DOT, DOT] {
        Some(all.last())
    } else {
        None
    }
}

/// The contents of a list of byte strings.
pub open spec fn contents(parts: Seq<Vec<u8>>) -> Seq<Seq<u8>> {
    Seq::new(parts.len(), |i: int| parts[i]@)
}

/// A path, kept byte for byte as it was given.
#[derive(Debug)]
pub struct FilePath {
    raw: Vec<u8>,
}

impl View for FilePath {
    type V = Seq<u8>;

    closed spec fn view(&self) -> Seq<u8> {
        self.raw@
    }
}

/// A copy of a byte string.
pub fn copy_bytes(bytes: &[u8]) -> (out: Vec<u8>)
    ensures
        out@ == bytes@,
{
    vstd::slice::slice_to_vec(bytes)
}

/// Whether two byte strings are equal.
pub fn same_bytes(a: &[u8], b: &[u8]) -> (same: bool)
    ensures
        same == (a@ == b@),
{
    if a.len() != b.len() {
        return false;
    }
    let mut i: usize = 0;
    while i < a.len()
        invariant
            i <= a.len(),
            a.len() == b.len(),
            forall|j: int| 0 <= j < i ==> a@[j] == b@[j],
        decreases a.len() - i,
    {
        if a[i] != b[i] {
            return false;
        }
        i += 1;
    }
    assert(a@ =~= b@);
    true
}

/// Whether a byte string is a single dot.
fn is_dot(bytes: &[u8]) -> (dot: bool)
    ensures
        dot == (bytes@ == seq![DOT]),
{
    let dot = bytes.len() == 1 && bytes[0] == DOT;
    assert(dot ==> bytes@ =~= seq![DOT]);
    dot
}

/// Whether a byte string is a single slash.
fn is_slash(bytes: &[u8]) -> (slash: bool)
    ensures
        slash == (bytes@ == seq![SLASH]),
{
    let slash = bytes.len() == 1 && bytes[0] == SLASH;
    assert(slash ==> bytes@ =~= seq![SLASH]);
    slash
}

/// Whether a byte string is a double dot.
fn is_double_dot(bytes: &[u8]) -> (dots: bool)
    ensures
        dots == (bytes@ == seq![DOT, DOT]),
{
    let dots = bytes.len() == 2 && bytes[0] == DOT && bytes[1] == DOT;
    assert(dots ==> bytes@ =~= seq![DOT, DOT]);
    dots
}

/// Whether a directory can list this name.
pub fn names_a_file(name: &[u8]) -> (ok: bool)
    ensures
        ok == is_file_name(name@),
{
    if name.len() == 0 || is_dot(name) || is_double_dot(name) {
        return false;
    }
    let mut i: usize = 0;
    while i < name.len()
        invariant
            i <= name.len(),
            forall|j: int| 0 <= j < i ==> name@[j] != SLASH,
        decreases name.len() - i,
    {
        if name[i] == SLASH {
            assert(name@.contains(SLASH));
            return false;
        }
        i += 1;
    }
    true
}

/// Whether the first list begins the second.
fn is_prefix(first: &Vec<Vec<u8>>, all: &Vec<Vec<u8>>) -> (prefix: bool)
    ensures
        prefix == contents(first@).is_prefix_of(contents(all@)),
{
    if first.len() > all.len() {
        return false;
    }
    let ghost a = contents(first@);
    let ghost b = contents(all@);
    let mut i: usize = 0;
    while i < first.len()
        invariant
            i <= first.len() <= all.len(),
            a == contents(first@),
            b == contents(all@),
            forall|j: int| 0 <= j < i ==> a[j] == b[j],
        decreases first.len() - i,
    {
        if !same_bytes(first[i].as_slice(), all[i].as_slice()) {
            assert(a[i as int] != b[i as int]);
            assert(b.subrange(0, a.len() as int)[i as int] == b[i as int]);
            return false;
        }
        assert(a[i as int] == b[i as int]);
        i += 1;
    }
    assert(a =~= b.subrange(0, a.len() as int));
    true
}

/// Whether two lists of byte strings are equal. Starts at the end, where the
/// components of two paths most often differ.
pub fn same_parts(a: &Vec<Vec<u8>>, b: &Vec<Vec<u8>>) -> (same: bool)
    ensures
        same == (contents(a@) == contents(b@)),
{
    let ghost left = contents(a@);
    let ghost right = contents(b@);
    if a.len() != b.len() {
        assert(left.len() != right.len());
        return false;
    }
    let mut i: usize = a.len();
    while i > 0
        invariant
            i <= a.len() == b.len(),
            left == contents(a@),
            right == contents(b@),
            forall|j: int| i <= j < a.len() ==> left[j] == right[j],
        decreases i,
    {
        i -= 1;
        if !same_bytes(a[i].as_slice(), b[i].as_slice()) {
            assert(left[i as int] != right[i as int]);
            return false;
        }
        assert(left[i as int] == right[i as int]);
    }
    assert(left =~= right);
    true
}

/// The pieces of `bytes` between the occurrences of `sep`.
pub fn split_bytes(bytes: &[u8], sep: u8) -> (out: Vec<Vec<u8>>)
    ensures
        contents(out@) == split_on(bytes@, sep),
{
    let mut out: Vec<Vec<u8>> = Vec::new();
    let mut piece: Vec<u8> = Vec::new();
    let mut i: usize = 0;
    assert(contents(out@).push(piece@) =~= split_on(bytes@.take(0), sep));
    while i < bytes.len()
        invariant
            i <= bytes.len(),
            contents(out@).push(piece@) == split_on(bytes@.take(i as int), sep),
        decreases bytes.len() - i,
    {
        let ghost done = contents(out@);
        let ghost current = piece@;
        proof {
            assert(bytes@.take(i + 1).drop_last() =~= bytes@.take(i as int));
            assert(done.push(current).drop_last() =~= done);
        }
        let b = bytes[i];
        if b == sep {
            out.push(piece);
            piece = Vec::new();
            assert(contents(out@) =~= done.push(current));
        } else {
            piece.push(b);
        }
        assert(contents(out@).push(piece@) =~= split_on(bytes@.take(i + 1), sep));
        i += 1;
    }
    assert(bytes@.take(i as int) =~= bytes@);
    out.push(piece);
    assert(contents(out@) =~= split_on(bytes@, sep));
    out
}

impl Clone for FilePath {
    fn clone(&self) -> (out: Self)
        ensures
            out@ == self@,
    {
        FilePath { raw: copy_bytes(self.raw.as_slice()) }
    }
}

impl FilePath {
    /// The path with these bytes.
    pub fn new(raw: Vec<u8>) -> (out: FilePath)
        ensures
            out@ == raw@,
    {
        FilePath { raw }
    }

    /// The bytes of the path.
    pub fn as_bytes(&self) -> (out: &[u8])
        ensures
            out@ == self@,
    {
        self.raw.as_slice()
    }

    /// The components of the path.
    pub fn parts(&self) -> (out: Vec<Vec<u8>>)
        ensures
            contents(out@) == components(self@),
    {
        let pieces = split_bytes(self.raw.as_slice(), SLASH);
        let ghost cut = split_on(self@, SLASH);
        let ghost keep = |piece: Seq<u8>| is_component(piece);
        proof {
            crate::split::split_has_a_piece(self@, SLASH);
            assert(contents(pieces@)[0] == pieces@[0]@);
        }
        let mut out: Vec<Vec<u8>> = Vec::new();
        if self.raw.len() > 0 && self.raw[0] == SLASH {
            out.push(vec![SLASH]);
            assert(out@[0]@ =~= seq![SLASH]);
        } else if is_dot(pieces[0].as_slice()) {
            out.push(vec![DOT]);
            assert(out@[0]@ =~= seq![DOT]);
        }
        assert(contents(out@) =~= leading_component(self@));
        let mut i: usize = 0;
        assert(cut.take(0).filter(keep) =~= Seq::empty()) by {
            reveal(Seq::filter);
        }
        while i < pieces.len()
            invariant
                i <= pieces.len(),
                contents(pieces@) == cut,
                keep == (|piece: Seq<u8>| is_component(piece)),
                contents(out@) == leading_component(self@) + cut.take(i as int).filter(keep),
            decreases pieces.len() - i,
        {
            let ghost held = contents(out@);
            proof {
                reveal(Seq::filter);
                assert(cut.take(i + 1).drop_last() =~= cut.take(i as int));
                assert(cut.take(i + 1).last() == pieces@[i as int]@);
            }
            if pieces[i].len() > 0 && !is_dot(pieces[i].as_slice()) {
                out.push(copy_bytes(pieces[i].as_slice()));
                assert(contents(out@) =~= held.push(pieces@[i as int]@));
                assert(contents(out@) =~= leading_component(self@) + cut.take(i + 1).filter(keep));
            }
            i += 1;
        }
        assert(cut.take(i as int) =~= cut);
        out
    }

    /// `name` placed below this path.
    pub fn join(&self, name: &[u8]) -> (out: FilePath)
        ensures
            out@ == joined(self@, name@),
    {
        if name.len() > 0 && name[0] == SLASH {
            return FilePath { raw: copy_bytes(name) };
        }
        let mut raw = copy_bytes(self.raw.as_slice());
        if raw.len() > 0 && raw[raw.len() - 1] != SLASH {
            raw.push(SLASH);
        }
        raw.extend_from_slice(name);
        assert(raw@ =~= joined(self@, name@));
        FilePath { raw }
    }

    /// Whether this path is `base` or lies below it.
    pub fn starts_with(&self, base: &FilePath) -> (under: bool)
        ensures
            under == is_under(self@, base@),
    {
        let all = self.parts();
        let first = base.parts();
        is_prefix(&first, &all)
    }

    /// Whether the two paths have the same components.
    pub fn same(&self, other: &FilePath) -> (same: bool)
        ensures
            same == (components(self@) == components(other@)),
    {
        let a = self.parts();
        let b = other.parts();
        same_parts(&a, &b)
    }

    /// The last component, if it is a name.
    pub fn file_name(&self) -> (out: Option<Vec<u8>>)
        ensures
            out is Some <==> final_name(self@) is Some,
            out is Some ==> out->0@ == final_name(self@)->0,
    {
        let mut all = self.parts();
        let ghost parts = contents(all@);
        match all.pop() {
            None => None,
            Some(last) => {
                assert(last@ == parts.last());
                if is_slash(last.as_slice()) || is_dot(last.as_slice()) || is_double_dot(
                    last.as_slice(),
                ) {
                    None
                } else {
                    Some(last)
                }
            },
        }
    }
}

/// The direct child of `root` that is `path` or an ancestor of it, or `None`
/// if `path` is `root` itself or does not lie below it.
pub fn top_child(root: &FilePath, path: &FilePath) -> (out: Option<FilePath>)
    ensures
        out is Some <==> direct_child(root@, path@) is Some,
        out is Some ==> out->0@ == direct_child(root@, path@)->0,
{
    let base = root.parts();
    let all = path.parts();
    if base.len() < all.len() && is_prefix(&base, &all) {
        let first = &all[base.len()];
        assert(first@ == contents(all@)[base@.len() as int]);
        Some(root.join(first.as_slice()))
    } else {
        None
    }
}

/// Filtering a list of one piece.
proof fn single_piece(piece: Seq<u8>)
    ensures
        seq![piece].filter(|p: Seq<u8>| is_component(p)) == if is_component(piece) {
            seq![piece]
        } else {
            Seq::empty()
        },
{
    let keep = |p: Seq<u8>| is_component(p);
    reveal_with_fuel(Seq::filter, 2);
    assert(seq![piece].drop_last() =~= Seq::<Seq<u8>>::empty());
    assert(seq![piece].filter(keep) =~= if is_component(piece) {
        seq![piece]
    } else {
        Seq::empty()
    });
}

/// Placing a name below a directory adds that name to the components, and
/// changes nothing else.
pub proof fn joining_adds_one_component(dir: Seq<u8>, name: Seq<u8>)
    requires
        is_component(name),
        !name.contains(SLASH),
    ensures
        components(joined(dir, name)) == components(dir).push(name),
{
    let keep = |p: Seq<u8>| is_component(p);
    let nothing = Seq::<u8>::empty();
    assert(name.contains(name[0]));
    crate::split::split_without_separator(name, SLASH);
    single_piece(name);
    single_piece(nothing);
    let whole = joined(dir, name);
    if dir.len() == 0 {
        assert(dir =~= nothing);
        assert(whole =~= name);
        assert(nothing != seq![DOT]) by {
            assert(seq![DOT].len() == 1);
        }
    } else if dir.last() == SLASH {
        let front = dir.drop_last();
        assert(dir =~= front.push(SLASH) + nothing);
        assert(whole =~= front.push(SLASH) + name);
        crate::split::split_at_separator(front, nothing, SLASH);
        crate::split::split_at_separator(front, name, SLASH);
        crate::split::split_has_a_piece(front, SLASH);
        let cut = split_on(front, SLASH);
        assert(split_on(dir, SLASH) == cut + seq![nothing]);
        Seq::filter_distributes_over_add(cut, seq![nothing], keep);
        Seq::filter_distributes_over_add(cut, seq![name], keep);
        assert((cut + seq![nothing])[0] == (cut + seq![name])[0]);
        assert(whole[0] == dir[0]);
    } else {
        crate::split::split_at_separator(dir, name, SLASH);
        crate::split::split_has_a_piece(dir, SLASH);
        let cut = split_on(dir, SLASH);
        Seq::filter_distributes_over_add(cut, seq![name], keep);
        assert((cut + seq![name])[0] == cut[0]);
        assert(whole[0] == dir[0]);
    }
    assert(components(whole) =~= components(dir).push(name));
}

/// A component that is not the leading one is a piece between slashes that
/// counts.
proof fn later_component(raw: Seq<u8>, i: int)
    requires
        leading_component(raw).len() <= i < components(raw).len(),
    ensures
        is_component(components(raw)[i]),
        !components(raw)[i].contains(SLASH),
{
    let keep = |p: Seq<u8>| is_component(p);
    let cut = split_on(raw, SLASH);
    let kept = cut.filter(keep);
    let at = i - leading_component(raw).len();
    let piece = kept[at];
    assert(components(raw)[i] == piece);
    cut.lemma_filter_pred(keep, at);
    assert(kept.contains(piece));
    cut.lemma_filter_contains_rev(keep, piece);
    let from = choose|j: int| 0 <= j < cut.len() && cut[j] == piece;
    crate::split::split_pieces_lack_separator(raw, SLASH, from);
}

/// The first piece of a sequence that does not start with the separator.
proof fn first_piece_is_not_empty(raw: Seq<u8>)
    requires
        raw.len() > 0,
        raw[0] != SLASH,
    ensures
        split_on(raw, SLASH)[0].len() > 0,
    decreases raw.len(),
{
    crate::split::split_has_a_piece(raw.drop_last(), SLASH);
    if raw.len() > 1 {
        first_piece_is_not_empty(raw.drop_last());
    } else {
        assert(raw.drop_last() =~= Seq::empty());
    }
}

/// Only the empty path has no components.
pub proof fn only_empty_path_has_no_components(raw: Seq<u8>)
    ensures
        components(raw).len() == 0 <==> raw.len() == 0,
{
    let keep = |p: Seq<u8>| is_component(p);
    let cut = split_on(raw, SLASH);
    if raw.len() == 0 {
        single_piece(Seq::empty());
        assert(components(raw) =~= Seq::empty());
    } else if raw[0] != SLASH {
        crate::split::split_has_a_piece(raw, SLASH);
        first_piece_is_not_empty(raw);
        if cut[0] != seq![DOT] {
            cut.lemma_filter_contains(keep, 0);
        }
    }
}

/// The components of a path that is a single component.
proof fn components_of_one(raw: Seq<u8>)
    requires
        raw == seq![SLASH] || raw == seq![DOT] || (is_component(raw) && !raw.contains(SLASH)),
    ensures
        components(raw) == seq![raw],
{
    let nothing = Seq::<u8>::empty();
    if raw == seq![SLASH] {
        let keep = |p: Seq<u8>| is_component(p);
        assert(raw =~= nothing.push(SLASH) + nothing);
        crate::split::split_at_separator(nothing, nothing, SLASH);
        single_piece(nothing);
        Seq::filter_distributes_over_add(seq![nothing], seq![nothing], keep);
        assert(components(raw) =~= seq![raw]);
    } else if raw == seq![DOT] {
        crate::split::split_without_separator(raw, SLASH);
        single_piece(raw);
        assert(components(raw) =~= seq![raw]);
    } else {
        joining_adds_one_component(nothing, raw);
        only_empty_path_has_no_components(nothing);
        assert(raw.contains(raw[0]));
        assert(joined(nothing, raw) =~= raw);
        assert(components(raw) =~= seq![raw]);
    }
}

/// What `top_child` finds is a direct child of `root` (one component longer)
/// and is `path` or an ancestor of it.
pub proof fn direct_child_is_child_and_ancestor(root: Seq<u8>, path: Seq<u8>)
    requires
        direct_child(root, path) is Some,
    ensures
        components(direct_child(root, path)->0) == components(path).take(
            components(root).len() as int + 1,
        ),
        is_under(direct_child(root, path)->0, root),
        is_under(path, direct_child(root, path)->0),
{
    let base = components(root);
    let all = components(path);
    let first = all[base.len() as int];
    let child = joined(root, first);
    only_empty_path_has_no_components(root);
    if base.len() == 0 {
        assert(root =~= Seq::empty());
        assert(child =~= first);
        if leading_component(path).len() == 0 {
            later_component(path, 0);
        }
        components_of_one(first);
    } else {
        later_component(path, base.len() as int);
        joining_adds_one_component(root, first);
    }
    assert(components(child) =~= all.take(base.len() as int + 1));
    assert(base =~= components(child).subrange(0, base.len() as int));
}

/// Of the paths at or below `root`, `root` alone has no direct child.
pub proof fn only_the_root_has_no_direct_child(root: Seq<u8>, path: Seq<u8>)
    requires
        is_under(path, root),
    ensures
        direct_child(root, path) is None <==> components(path) == components(root),
{
    let base = components(root);
    let all = components(path);
    if base.len() == all.len() {
        assert(all.subrange(0, base.len() as int) =~= all);
    }
}

/// A path directly below `root` is its own direct child.
pub proof fn direct_child_of_joined(root: Seq<u8>, name: Seq<u8>)
    requires
        is_component(name),
        !name.contains(SLASH),
    ensures
        direct_child(root, joined(root, name)) == Some(joined(root, name)),
{
    joining_adds_one_component(root, name);
    let all = components(joined(root, name));
    assert(components(root) =~= all.subrange(0, components(root).len() as int));
}

/// Every path below a direct child of `root` has that child as its direct
/// child of `root`.
pub proof fn direct_child_of_descendant(root: Seq<u8>, name: Seq<u8>, path: Seq<u8>)
    requires
        is_component(name),
        !name.contains(SLASH),
        is_under(path, joined(root, name)),
    ensures
        direct_child(root, path) == Some(joined(root, name)),
{
    joining_adds_one_component(root, name);
    let all = components(path);
    let base = components(root);
    let mid = components(joined(root, name));
    assert(mid == all.subrange(0, mid.len() as int));
    assert(all[base.len() as int] == mid[base.len() as int]);
    assert(base =~= all.subrange(0, base.len() as int)) by {
        assert forall|i: int| 0 <= i < base.len() implies base[i] == all[i] by {
            assert(mid[i] == all.subrange(0, mid.len() as int)[i]);
        }
    }
}

/// A path placed below another is under it.
pub proof fn joined_is_under(dir: Seq<u8>, name: Seq<u8>)
    requires
        is_file_name(name),
    ensures
        is_under(joined(dir, name), dir),
{
    joining_adds_one_component(dir, name);
    let all = components(joined(dir, name));
    assert(components(dir) =~= all.subrange(0, components(dir).len() as int));
}

/// Being under is transitive.
pub proof fn under_is_transitive(a: Seq<u8>, b: Seq<u8>, c: Seq<u8>)
    requires
        is_under(a, b),
        is_under(b, c),
    ensures
        is_under(a, c),
{
    let x = components(a);
    let y = components(b);
    let z = components(c);
    assert(z =~= x.subrange(0, z.len() as int)) by {
        assert forall|i: int| 0 <= i < z.len() implies z[i] == x[i] by {
            assert(y.subrange(0, z.len() as int)[i] == y[i]);
            assert(x.subrange(0, y.len() as int)[i] == x[i]);
        }
    }
}

/// Whatever is not empty, holds no slash and is not a single dot, a double dot
/// among it, is one component when it is placed below a directory.
pub proof fn a_name_is_one_component(dir: Seq<u8>, name: Seq<u8>)
    requires
        name.len() > 0,
        forall|i: int| 0 <= i < name.len() ==> #[trigger] name[i] != 0x2f,
        name != seq![0x2eu8],
    ensures
        components(joined(dir, name)) == components(dir).push(name),
{
    joining_adds_one_component(dir, name);
}

/// The empty path has no components; the root and the directory itself have
/// one each.
pub proof fn components_of_the_shortest_paths()
    ensures
        components(Seq::empty()).len() == 0,
        components(seq![0x2fu8]) == seq![seq![0x2fu8]],
        components(seq![0x2eu8]) == seq![seq![0x2eu8]],
{
    only_empty_path_has_no_components(Seq::empty());
    components_of_one(seq![SLASH]);
    components_of_one(seq![DOT]);
}

/// A slash behind a path, and a dot placed below it, leave no trace.
pub proof fn slashes_and_dots_leave_no_trace(dir: Seq<u8>)
    requires
        dir.len() > 0,
    ensures
        components(dir.push(0x2f)) == components(dir),
        components(joined(dir, seq![0x2eu8])) == components(dir),
{
    let keep = |p: Seq<u8>| is_component(p);
    let nothing = Seq::<u8>::empty();
    let dot = seq![DOT];
    single_piece(nothing);
    single_piece(dot);
    crate::split::split_without_separator(nothing, SLASH);
    crate::split::split_without_separator(dot, SLASH);
    slash_and_piece(dir, nothing);
    slash_and_piece(dir, dot);
    assert(dir.push(SLASH) + nothing =~= dir.push(SLASH));
    if dir.last() == SLASH {
        let front = dir.drop_last();
        assert(dir =~= front.push(SLASH) + nothing);
        assert(joined(dir, dot) =~= front.push(SLASH) + dot);
        crate::split::split_at_separator(front, nothing, SLASH);
        crate::split::split_at_separator(front, dot, SLASH);
        crate::split::split_has_a_piece(front, SLASH);
        let cut = split_on(front, SLASH);
        Seq::filter_distributes_over_add(cut, seq![nothing], keep);
        Seq::filter_distributes_over_add(cut, seq![dot], keep);
        assert((cut + seq![nothing])[0] == (cut + seq![dot])[0]);
        assert(joined(dir, dot)[0] == dir[0]);
        assert(components(joined(dir, dot)) =~= components(dir));
    } else {
        assert(joined(dir, dot) =~= dir.push(SLASH) + dot);
    }
}

/// A piece that is no component, behind a slash, leaves no trace.
proof fn slash_and_piece(dir: Seq<u8>, piece: Seq<u8>)
    requires
        dir.len() > 0,
        !piece.contains(SLASH),
        !is_component(piece),
    ensures
        components(dir.push(SLASH) + piece) == components(dir),
{
    let keep = |p: Seq<u8>| is_component(p);
    let whole = dir.push(SLASH) + piece;
    let cut = split_on(dir, SLASH);
    single_piece(piece);
    crate::split::split_without_separator(piece, SLASH);
    crate::split::split_at_separator(dir, piece, SLASH);
    crate::split::split_has_a_piece(dir, SLASH);
    Seq::filter_distributes_over_add(cut, seq![piece], keep);
    assert((cut + seq![piece])[0] == cut[0]);
    assert(whole[0] == dir[0]);
    assert(components(whole) =~= components(dir));
}

/// A name that does not begin with a slash is put behind the directory, with
/// one slash between the two where the directory does not end in one; a name
/// that does stands alone.
pub proof fn joining_puts_the_name_last(dir: Seq<u8>, name: Seq<u8>)
    ensures
        name.len() > 0 && name[0] == 0x2f ==> joined(dir, name) == name,
        !(name.len() > 0 && name[0] == 0x2f) && dir.len() > 0 && dir[dir.len() - 1] != 0x2f
            ==> joined(dir, name) == dir + seq![0x2fu8] + name,
        !(name.len() > 0 && name[0] == 0x2f) && !(dir.len() > 0 && dir[dir.len() - 1] != 0x2f)
            ==> joined(dir, name) == dir + name,
{
    assert(dir.push(SLASH) + name =~= dir + seq![0x2fu8] + name);
}

/// A path is under another exactly if its components begin with those of the
/// other.
pub proof fn being_under_goes_by_components(path: Seq<u8>, base: Seq<u8>)
    ensures
        is_under(path, base) <==> {
            &&& components(base).len() <= components(path).len()
            &&& forall|i: int|
                0 <= i < components(base).len() ==> #[trigger] components(path)[i] == components(
                    base,
                )[i]
        },
{
    let all = components(path);
    let first = components(base);
    if is_under(path, base) {
        assert forall|i: int| 0 <= i < first.len() implies #[trigger] all[i] == first[i] by {
            assert(all.subrange(0, first.len() as int)[i] == all[i]);
        }
    } else if first.len() <= all.len() && (forall|i: int|
        0 <= i < first.len() ==> #[trigger] all[i] == first[i]) {
        assert(first =~= all.subrange(0, first.len() as int));
    }
}

/// A directory can list every name that is not empty and holds no slash, but
/// the single and the double dot.
pub proof fn names_that_can_be_listed(name: Seq<u8>)
    ensures
        is_file_name(name) <==> name.len() > 0 && (forall|i: int|
            0 <= i < name.len() ==> #[trigger] name[i] != 0x2f) && name != seq![0x2eu8] && name
            != seq![0x2eu8, 0x2eu8],
{
    if name.len() > 0 && (forall|i: int| 0 <= i < name.len() ==> #[trigger] name[i] != 0x2f) {
        assert(!name.contains(SLASH));
    } else if !name.contains(SLASH) {
        assert forall|i: int| 0 <= i < name.len() implies #[trigger] name[i] != 0x2f by {
            assert(name.contains(name[i]));
        }
    }
}

/// The name that a path ends in is its last component; a path placed below a
/// directory by a name ends in that name, and none that ends in a double dot,
/// and neither the root nor the directory itself, ends in a name.
pub proof fn paths_end_in_their_last_component(dir: Seq<u8>, name: Seq<u8>)
    ensures
        is_file_name(name) ==> final_name(joined(dir, name)) == Some(name),
        final_name(joined(dir, seq![0x2eu8, 0x2eu8])) is None,
        final_name(seq![0x2fu8]) is None,
        final_name(seq![0x2eu8]) is None,
        final_name(Seq::empty()) is None,
        final_name(dir) matches Some(last) ==> components(dir).len() > 0 && last == components(
            dir,
        )[components(dir).len() - 1],
{
    let dots = seq![0x2eu8, 0x2eu8];
    assert(dots[0] == 0x2e && dots[1] == 0x2e);
    a_name_is_one_component(dir, dots);
    components_of_the_shortest_paths();
    if is_file_name(name) {
        joining_adds_one_component(dir, name);
        assert(name != seq![SLASH]) by {
            if name == seq![SLASH] {
                assert(name[0] == SLASH);
                assert(name.contains(SLASH));
            }
        }
    }
}

/// A list of byte strings says what it holds, one by one and in order.
pub proof fn byte_strings_say_what_they_hold(parts: Seq<Vec<u8>>, i: int)
    ensures
        contents(parts).len() == parts.len(),
        0 <= i < parts.len() ==> contents(parts)[i] == parts[i]@,
{
}

} // verus!
