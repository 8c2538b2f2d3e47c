//! File system paths as byte strings with `/` as the separator.

use vstd::prelude::*;

verus! {

/// The byte that separates the names of a path.
pub const SEPARATOR: u8 = 47;

/// The byte of which the names `.` and `..` are made.
pub const DOT: u8 = 46;

/// The bytes that are left of `text` once its leading separators are gone.
pub open spec fn without_leading_separators(text: Seq<u8>) -> Seq<u8>
    decreases text.len(),
{
    if text.len() > 0 && text[0] == SEPARATOR {
        without_leading_separators(text.skip(1))
    } else {
        text
    }
}

/// Number of separators that `text` starts with.
pub fn leading_separators(text: &[u8]) -> (count: usize)
    ensures
        count <= text@.len(),
        text@.skip(count as int) == without_leading_separators(text@),
        forall|i: int| 0 <= i < count ==> text@[i] == SEPARATOR,
        count < text@.len() ==> text@[count as int] != SEPARATOR,
{
    let mut count: usize = 0;
    assert(text@.skip(0) == text@);
    while count < text.len() && text[count] == SEPARATOR
        invariant
            count <= text@.len(),
            forall|i: int| 0 <= i < count ==> text@[i] == SEPARATOR,
            without_leading_separators(text@.skip(count as int)) == without_leading_separators(
                text@,
            ),
        decreases text@.len() - count,
    {
        assert(text@.skip(count as int).skip(1) == text@.skip(count as int + 1));
        count += 1;
    }
    count
}

/// The names that `text` holds between its separators, in order: each is a
/// longest run of bytes that are no separator.
pub open spec fn names_of(text: Seq<u8>) -> Seq<Seq<u8>>
    decreases text.len(),
{
    if text.len() == 0 {
        Seq::empty()
    } else if text.last() == SEPARATOR {
        names_of(text.drop_last())
    } else if text.len() >= 2 && text[text.len() - 2] != SEPARATOR {
        let before = names_of(text.drop_last());
        before.drop_last().push(before.last().push(text.last()))
    } else {
        names_of(text.drop_last()).push(seq![text.last()])
    }
}

/// Splits `text` at its separators and returns the names between them.
pub fn names(text: &[u8]) -> (found: Vec<Vec<u8>>)
    ensures
        found.deep_view() == names_of(text@),
{
    let mut found: Vec<Vec<u8>> = Vec::new();
    let mut name: Vec<u8> = Vec::new();
    let mut at: usize = 0;
    assert(text@.take(0) =~= Seq::<u8>::empty());
    assert(found.deep_view() =~= Seq::<Seq<u8>>::empty());
    while at < text.len()
        invariant
            at <= text@.len(),
            name@.len() == 0 ==> found.deep_view() == names_of(text@.take(at as int)),
            name@.len() == 0 ==> (at == 0 || text@[at - 1] == SEPARATOR),
            name@.len() > 0 ==> found.deep_view().push(name@) == names_of(text@.take(at as int)),
            name@.len() > 0 ==> (at > 0 && text@[at - 1] != SEPARATOR),
        decreases text@.len() - at,
    {
        let byte = text[at];
        let ghost seen = text@.take(at as int);
        let ghost next = text@.take(at as int + 1);
        let ghost before = found.deep_view();
        assert(next.drop_last() =~= seen);
        assert(next.last() == byte);
        if byte == SEPARATOR {
            if name.len() > 0 {
                assert(name.deep_view() =~= name@);
                found.push(name);
                name = Vec::new();
                assert(found.deep_view() =~= before.push(found@[found@.len() - 1].deep_view()));
            }
        } else {
            proof {
                if name@.len() > 0 {
                    assert(before.push(name@).drop_last() =~= before);
                } else {
                    assert(seq![byte] =~= name@.push(byte));
                }
            }
            name.push(byte);
        }
        at += 1;
    }
    assert(text@.take(at as int) =~= text@);
    if name.len() > 0 {
        let ghost before = found.deep_view();
        assert(name.deep_view() =~= name@);
        found.push(name);
        assert(found.deep_view() =~= before.push(found@[found@.len() - 1].deep_view()));
    }
    found
}

/// The name that stands for the directory itself.
pub open spec fn cur_dir() -> Seq<u8> {
    seq![DOT]
}

/// The name of the root directory as a component: one separator.
pub open spec fn root_dir() -> Seq<u8> {
    seq![SEPARATOR]
}

/// Whether `text` starts at the root directory.
pub open spec fn is_rooted(text: Seq<u8>) -> bool {
    text.len() > 0 && text[0] == SEPARATOR
}

/// Whether the first name of `text` is `.`, with no separator before it.
pub open spec fn begins_with_cur_dir(text: Seq<u8>) -> bool {
    text.len() > 0 && text[0] == DOT && (text.len() == 1 || text[1] == SEPARATOR)
}

/// The test that a name passes unless it is `.`.
pub open spec fn is_kept() -> spec_fn(Seq<u8>) -> bool {
    |name: Seq<u8>| name != cur_dir()
}

/// The component that `text` starts with before any of its kept names: the
/// root directory, a leading `.`, or nothing.
pub open spec fn head_of(text: Seq<u8>) -> Seq<Seq<u8>> {
    if is_rooted(text) {
        seq![root_dir()]
    } else if begins_with_cur_dir(text) {
        seq![cur_dir()]
    } else {
        Seq::empty()
    }
}

/// The components of `text`: the root directory if `text` starts with a
/// separator, then its names in order. Repeated separators count once, and a
/// name `.` counts only where `text` begins with it; `..` is a name like any
/// other.
pub open spec fn components_of(text: Seq<u8>) -> Seq<Seq<u8>> {
    head_of(text) + names_of(text).filter(is_kept())
}

/// Whether `name` is the single byte `.`.
pub fn is_cur_dir(name: &[u8]) -> (yes: bool)
    ensures
        yes == (name@ == cur_dir()),
{
    let yes = name.len() == 1 && name[0] == DOT;
    assert(yes ==> name@ =~= cur_dir());
    yes
}

/// Splits `text` into its components.
pub fn components(text: &[u8]) -> (parts: Vec<Vec<u8>>)
    ensures
        parts.deep_view() == components_of(text@),
{
    let all = names(text);
    let mut parts: Vec<Vec<u8>> = Vec::new();
    if text.len() > 0 && text[0] == SEPARATOR {
        let root: Vec<u8> = vec![SEPARATOR];
        assert(root.deep_view() =~= root_dir());
        parts.push(root);
    } else if text.len() > 0 && text[0] == DOT && (text.len() == 1 || text[1] == SEPARATOR) {
        let dot: Vec<u8> = vec![DOT];
        assert(dot.deep_view() =~= cur_dir());
        parts.push(dot);
    }
    assert(parts.deep_view() =~= head_of(text@));
    let mut at: usize = 0;
    assert(all.deep_view().take(0) =~= Seq::<Seq<u8>>::empty());
    while at < all.len()
        invariant
            at <= all@.len(),
            all.deep_view() == names_of(text@),
            parts.deep_view() == head_of(text@) + all.deep_view().take(at as int).filter(
                is_kept(),
            ),
        decreases all@.len() - at,
    {
        broadcast use Seq::lemma_filter_push;

        let ghost before = parts.deep_view();
        let ghost seen = all.deep_view().take(at as int);
        assert(all.deep_view().take(at as int + 1) =~= seen.push(all@[at as int].deep_view()));
        assert(all@[at as int].deep_view() =~= all@[at as int]@);
        if !is_cur_dir(all[at].as_slice()) {
            let name = vstd::slice::slice_to_vec(all[at].as_slice());
            assert(name.deep_view() =~= name@);
            parts.push(name);
            assert(parts.deep_view() =~= before.push(all@[at as int]@));
        }
        at += 1;
    }
    assert(all.deep_view().take(at as int) =~= all.deep_view());
    parts
}

/// Whether two byte strings hold the same bytes.
pub fn same_bytes(left: &[u8], right: &[u8]) -> (same: bool)
    ensures
        same == (left@ == right@),
{
    if left.len() != right.len() {
        return false;
    }
    let mut at: usize = 0;
    while at < left.len()
        invariant
            at <= left@.len(),
            left@.len() == right@.len(),
            forall|i: int| 0 <= i < at ==> left@[i] == right@[i],
        decreases left@.len() - at,
    {
        if left[at] != right[at] {
            return false;
        }
        at += 1;
    }
    assert(left@ =~= right@);
    true
}

/// Whether the components of `base` are the first components of `path`, one
/// for one and in order.
pub open spec fn starts_with_path(path: Seq<u8>, base: Seq<u8>) -> bool {
    components_of(base).is_prefix_of(components_of(path))
}

/// Compares the components of `base` with those of `path` in lockstep from
/// the start; true when every component of `base` meets its equal.
pub fn starts_with(path: &[u8], base: &[u8]) -> (yes: bool)
    ensures
        yes == starts_with_path(path@, base@),
{
    let ours = components(path);
    let theirs = components(base);
    if theirs.len() > ours.len() {
        return false;
    }
    let mut at: usize = 0;
    while at < theirs.len()
        invariant
            at <= theirs@.len() <= ours@.len(),
            ours.deep_view() == components_of(path@),
            theirs.deep_view() == components_of(base@),
            forall|i: int| 0 <= i < at ==> ours.deep_view()[i] == theirs.deep_view()[i],
        decreases theirs@.len() - at,
    {
        assert(ours@[at as int].deep_view() =~= ours@[at as int]@);
        assert(theirs@[at as int].deep_view() =~= theirs@[at as int]@);
        if !same_bytes(ours[at].as_slice(), theirs[at].as_slice()) {
            assert(components_of(path@)[at as int] != components_of(base@)[at as int]);
            assert(components_of(path@).subrange(0, components_of(base@).len() as int)[at as int]
                == components_of(path@)[at as int]);
            return false;
        }
        at += 1;
    }
    assert(theirs.deep_view() =~= ours.deep_view().subrange(0, theirs@.len() as int));
    true
}

/// `base` with `part` pushed onto it: `part` alone when it starts at the
/// root directory; otherwise `base`, one separator unless `base` is empty or
/// ends with one, then `part`.
pub open spec fn pushed(base: Seq<u8>, part: Seq<u8>) -> Seq<u8> {
    if is_rooted(part) {
        part
    } else if base.len() == 0 || base.last() == SEPARATOR {
        base + part
    } else {
        base.push(SEPARATOR) + part
    }
}

/// Pushes `part` onto `path`.
pub fn push(path: &mut Vec<u8>, part: &[u8])
    ensures
        final(path)@ == pushed(old(path)@, part@),
{
    if part.len() > 0 && part[0] == SEPARATOR {
        path.clear();
        assert(path@ + part@ =~= part@);
    } else if path.len() > 0 && path[path.len() - 1] != SEPARATOR {
        path.push(SEPARATOR);
    }
    path.extend_from_slice(part);
}

/// `base` with each of `parts` pushed onto it in turn.
pub open spec fn joined(base: Seq<u8>, parts: Seq<Seq<u8>>) -> Seq<u8>
    decreases parts.len(),
{
    if parts.len() == 0 {
        base
    } else {
        pushed(joined(base, parts.drop_last()), parts.last())
    }
}

/// Pushes the parts onto a copy of `base`, one at a time.
pub fn join(base: &[u8], parts: &Vec<Vec<u8>>) -> (path: Vec<u8>)
    ensures
        path@ == joined(base@, parts.deep_view()),
{
    let mut path = vstd::slice::slice_to_vec(base);
    let mut at: usize = 0;
    assert(parts.deep_view().take(0) =~= Seq::<Seq<u8>>::empty());
    while at < parts.len()
        invariant
            at <= parts@.len(),
            path@ == joined(base@, parts.deep_view().take(at as int)),
        decreases parts@.len() - at,
    {
        let ghost next = parts.deep_view().take(at as int + 1);
        assert(next.drop_last() =~= parts.deep_view().take(at as int));
        assert(next.last() =~= parts@[at as int]@);
        push(&mut path, parts[at].as_slice());
        at += 1;
    }
    assert(parts.deep_view().take(at as int) =~= parts.deep_view());
    path
}

/// Whether `name` can stand between two separators: it is not empty and
/// holds no separator.
pub open spec fn is_name(name: Seq<u8>) -> bool {
    name.len() > 0 && forall|i: int| 0 <= i < name.len() ==> name[i] != SEPARATOR
}

/// Every name of a text is a name, and a text that does not end with a
/// separator ends with its last name.
pub proof fn lemma_names_are_names(text: Seq<u8>)
    ensures
        forall|i: int| 0 <= i < names_of(text).len() ==> is_name(#[trigger] names_of(text)[i]),
        text.len() > 0 && text.last() != SEPARATOR ==> names_of(text).len() > 0,
    decreases text.len(),
{
    if text.len() > 0 {
        let shorter = text.drop_last();
        lemma_names_are_names(shorter);
        let before = names_of(shorter);
        assert forall|i: int| 0 <= i < names_of(text).len() implies is_name(
            #[trigger] names_of(text)[i],
        ) by {
            if text.last() == SEPARATOR {
            } else if text.len() >= 2 && text[text.len() - 2] != SEPARATOR {
                assert(shorter.last() == text[text.len() - 2]);
                if i < before.len() - 1 {
                    assert(names_of(text)[i] == before[i]);
                } else {
                    assert(is_name(before[before.len() - 1]));
                    assert(names_of(text)[i] == before.last().push(text.last()));
                }
            } else {
                if i < before.len() {
                    assert(names_of(text)[i] == before[i]);
                } else {
                    assert(names_of(text)[i] == seq![text.last()]);
                }
            }
        }
    }
}

/// A name behind a text that is empty or ends with a separator is one more
/// name of the whole.
pub proof fn lemma_names_of_appended(base: Seq<u8>, name: Seq<u8>)
    requires
        is_name(name),
        base.len() == 0 || base.last() == SEPARATOR,
    ensures
        names_of(base + name) == names_of(base).push(name),
    decreases name.len(),
{
    let whole = base + name;
    assert(whole.drop_last() =~= base + name.drop_last());
    if name.len() == 1 {
        assert(base + name.drop_last() =~= base);
        assert(seq![whole.last()] =~= name);
    } else {
        lemma_names_of_appended(base, name.drop_last());
        assert(names_of(base).push(name.drop_last()).drop_last() =~= names_of(base));
        assert(name.drop_last().push(whole.last()) =~= name);
    }
}

/// Pushing a name onto a path adds it to the path's components, unless the
/// name is `.` and the path is not empty: then the components stay as they
/// are. Pushed onto the empty path, a name is the only component.
pub proof fn lemma_components_of_pushed(base: Seq<u8>, name: Seq<u8>)
    requires
        is_name(name),
    ensures
        pushed(base, name).len() > 0,
        base.len() > 0 && name != cur_dir() ==> components_of(pushed(base, name))
            == components_of(base).push(name),
        base.len() > 0 && name == cur_dir() ==> components_of(pushed(base, name))
            == components_of(base),
        base.len() == 0 ==> components_of(pushed(base, name)) == seq![name],
{
    broadcast use Seq::lemma_filter_push;

    let whole = pushed(base, name);
    assert(!is_rooted(name));
    if base.len() == 0 || base.last() == SEPARATOR {
        lemma_names_of_appended(base, name);
    } else {
        let opened = base.push(SEPARATOR);
        assert(opened.drop_last() =~= base);
        lemma_names_of_appended(opened, name);
    }
    assert(names_of(whole) == names_of(base).push(name));
    if base.len() == 0 {
        assert(whole =~= name);
        assert(names_of(base) =~= Seq::<Seq<u8>>::empty());
        assert(Seq::<Seq<u8>>::empty().filter(is_kept()) =~= Seq::<Seq<u8>>::empty()) by {
            reveal(Seq::filter);
        }
        if name == cur_dir() {
            assert(begins_with_cur_dir(whole));
        } else {
            assert(!begins_with_cur_dir(whole)) by {
                if begins_with_cur_dir(whole) {
                    assert(whole.len() == 1);
                    assert(whole =~= cur_dir());
                }
            }
        }
        assert(components_of(whole) =~= seq![name]);
    } else {
        assert(whole[0] == base[0]);
        assert(is_rooted(whole) == is_rooted(base));
        assert(begins_with_cur_dir(whole) == begins_with_cur_dir(base)) by {
            if base.len() >= 2 {
                assert(whole[1] == base[1]);
            } else if base.last() != SEPARATOR {
                assert(whole[1] == SEPARATOR);
            }
        }
        assert(head_of(whole) == head_of(base));
        if name != cur_dir() {
            assert(components_of(whole) =~= components_of(base).push(name));
        } else {
            assert(components_of(whole) =~= components_of(base));
        }
    }
}

/// Whether `parts` can be the components of a path that does not start at
/// the root directory: each is a name, and none but the first is `.`.
pub open spec fn are_relative_components(parts: Seq<Seq<u8>>) -> bool {
    &&& forall|i: int| 0 <= i < parts.len() ==> is_name(#[trigger] parts[i])
    &&& forall|i: int| 1 <= i < parts.len() ==> #[trigger] parts[i] != cur_dir()
}

/// The components of a path onto which the components of a relative path
/// were pushed: those of the path, then the pushed ones without a leading
/// `.`. Pushed onto the empty path, they are the components themselves.
pub proof fn lemma_components_of_joined(base: Seq<u8>, parts: Seq<Seq<u8>>)
    requires
        are_relative_components(parts),
    ensures
        joined(base, parts).len() > 0 <==> base.len() > 0 || parts.len() > 0,
        base.len() > 0 ==> components_of(joined(base, parts)) == components_of(base)
            + parts.filter(is_kept()),
        base.len() == 0 ==> components_of(joined(base, parts)) == parts,
    decreases parts.len(),
{
    broadcast use Seq::lemma_filter_push;

    if parts.len() == 0 {
        assert(parts.filter(is_kept()) =~= Seq::<Seq<u8>>::empty()) by {
            reveal(Seq::filter);
        }
        assert(components_of(base) + Seq::<Seq<u8>>::empty() =~= components_of(base));
        if base.len() == 0 {
            assert(names_of(base) =~= parts);
            assert(components_of(base) =~= parts);
        }
    } else {
        let first = parts.drop_last();
        let last = parts.last();
        let middle = joined(base, first);
        assert(are_relative_components(first)) by {
            assert forall|i: int| 0 <= i < first.len() implies is_name(#[trigger] first[i]) by {
                assert(first[i] == parts[i]);
            }
            assert forall|i: int| 1 <= i < first.len() implies #[trigger] first[i]
                != cur_dir() by {
                assert(first[i] == parts[i]);
            }
        }
        lemma_components_of_joined(base, first);
        assert(is_name(parts[parts.len() - 1]));
        lemma_components_of_pushed(middle, last);
        assert(first.push(last) =~= parts);
        if base.len() > 0 {
            if last != cur_dir() {
                assert(components_of(base) + first.filter(is_kept()).push(last) =~= (
                components_of(base) + first.filter(is_kept())).push(last));
            }
        } else if first.len() > 0 {
            assert(parts[parts.len() - 1] != cur_dir());
        }
    }
}

/// The components of a path that does not start at the root directory are
/// names, and `.` is at most the first of them.
pub proof fn lemma_components_of_relative(text: Seq<u8>)
    requires
        !is_rooted(text),
    ensures
        are_relative_components(components_of(text)),
{
    broadcast use {Seq::lemma_filter_pred, Seq::lemma_filter_contains_rev};

    let kept = names_of(text).filter(is_kept());
    let parts = components_of(text);
    lemma_names_are_names(text);
    assert forall|i: int| 0 <= i < kept.len() implies is_name(#[trigger] kept[i]) && kept[i]
        != cur_dir() by {
        assert(is_kept()(kept[i]));
        assert(kept.contains(kept[i]));
        assert(names_of(text).contains(kept[i]));
    }
    assert(is_name(cur_dir()));
    assert forall|i: int| 0 <= i < parts.len() implies is_name(#[trigger] parts[i]) by {
        if i >= head_of(text).len() {
            assert(parts[i] == kept[i - head_of(text).len()]);
        }
    }
    assert forall|i: int| 1 <= i < parts.len() implies #[trigger] parts[i] != cur_dir() by {
        assert(parts[i] == kept[i - head_of(text).len()]);
    }
}

/// What is left of a text without its leading separators does not start at
/// the root directory.
pub proof fn lemma_without_leading_separators(text: Seq<u8>)
    ensures
        !is_rooted(without_leading_separators(text)),
    decreases text.len(),
{
    if text.len() > 0 && text[0] == SEPARATOR {
        lemma_without_leading_separators(text.skip(1));
    }
}

} // verus!
