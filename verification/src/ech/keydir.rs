//! Directories of ECH key files.

use vstd::prelude::*;
use vstd::utf8::encode_utf8;
use vstd::utf8::encode_utf8_decode_utf8;

use crate::bytes::at_most;
use crate::bytes::bytes_le;
use crate::bytes::copy_of;
use crate::bytes::lemma_bytes_antisymmetric;
use crate::bytes::lemma_bytes_total;
use crate::bytes::lemma_bytes_transitive;
use crate::ech::key::files_of;
use crate::ech::key::is_key_file_name;
use crate::ech::key::loads;
use crate::ech::key::EchKeySet;
use crate::ech::key::KeySetError;

verus! {

/// An entry of a key directory.
#[derive(Debug)]
pub struct DirEntry {
    /// The name of the entry, if it is text.
    pub name: Option<String>,
    /// Whether the entry is a regular file.
    pub is_file: bool,
    /// What the file holds; `None` if it was not read or cannot be.
    pub contents: Option<Vec<u8>>,
}

/// What an entry of a key directory is.
pub struct DirEntryView {
    pub name: Option<Seq<char>>,
    pub is_file: bool,
    pub contents: Option<Seq<u8>>,
}

impl View for DirEntry {
    type V = DirEntryView;

    open spec fn view(&self) -> DirEntryView {
        DirEntryView {
            name: match self.name {
                Some(n) => Some(n@),
                None => None,
            },
            is_file: self.is_file,
            contents: match self.contents {
                Some(c) => Some(c@),
                None => None,
            },
        }
    }
}

/// Whether an entry is a key file: a regular file with a name that is text and does
/// not begin with a dot.
pub open spec fn is_key_file(e: DirEntryView) -> bool {
    e.is_file && (e.name matches Some(n) && !(n.len() > 0 && n[0] == '.'))
}

/// The bytes of the name of an entry.
pub open spec fn name_bytes(e: DirEntryView) -> Seq<u8> {
    encode_utf8(e.name->0)
}

/// Whether the name of `a` comes before that of `b` or equals it.
pub open spec fn name_le(a: DirEntryView, b: DirEntryView) -> bool {
    bytes_le(name_bytes(a), name_bytes(b))
}

/// Some files in ascending order of their names, with one more in its place.
pub open spec fn with_file(files: Seq<DirEntryView>, e: DirEntryView) -> Seq<DirEntryView>
    decreases files.len(),
{
    if files.len() == 0 || name_le(files.last(), e) {
        files.push(e)
    } else {
        with_file(files.drop_last(), e).push(files.last())
    }
}

/// The key files among some entries, in ascending order of their names.
pub open spec fn key_files(entries: Seq<DirEntryView>) -> Seq<DirEntryView>
    decreases entries.len(),
{
    if entries.len() == 0 {
        Seq::empty()
    } else if is_key_file(entries.last()) {
        with_file(key_files(entries.drop_last()), entries.last())
    } else {
        key_files(entries.drop_last())
    }
}

/// The entries of a list, as what they are.
pub open spec fn entry_views(s: Seq<DirEntry>) -> Seq<DirEntryView> {
    s.map_values(|e: DirEntry| e@)
}

/// What some files hold, where they could be read.
pub open spec fn contents_of(files: Seq<DirEntryView>) -> Seq<Seq<u8>> {
    files.map_values(|e: DirEntryView| e.contents->0)
}

/// Whether the file at `i` is the first that could not be read.
pub open spec fn first_unreadable(files: Seq<DirEntryView>, i: int) -> bool {
    &&& 0 <= i < files.len()
    &&& files[i].contents is None
    &&& forall|j: int| 0 <= j < i ==> (#[trigger] files[j]).contents is Some
}

impl DirEntry {
    /// Whether the entry is a key file.
    pub fn is_key_file(&self) -> (r: bool)
        ensures
            r == is_key_file(self@),
    {
        match &self.name {
            Some(name) => self.is_file && is_key_file_name(name),
            None => false,
        }
    }

    fn name_at_most(&self, other: &DirEntry) -> (r: bool)
        requires
            self.name is Some,
            other.name is Some,
        ensures
            r == name_le(self@, other@),
    {
        match (&self.name, &other.name) {
            (Some(a), Some(b)) => at_most(a.as_str().as_bytes(), b.as_str().as_bytes()),
            _ => false,
        }
    }
}

/// The entries at some places of a list.
spec fn picked(all: Seq<DirEntryView>, order: Seq<usize>) -> Seq<DirEntryView> {
    order.map_values(|i: usize| all[i as int])
}

/// The places of the key files, in ascending order of their names.
fn file_order(entries: &[DirEntry]) -> (order: Vec<usize>)
    ensures
        forall|k: int| 0 <= k < order@.len() ==> (#[trigger] order@[k]) < entries@.len(),
        picked(entry_views(entries@), order@) == key_files(entry_views(entries@)),
{
    let ghost all = entry_views(entries@);
    let mut order: Vec<usize> = Vec::new();
    let mut i: usize = 0;
    assert(picked(all, order@) =~= key_files(all.take(0)));
    while i < entries.len()
        invariant
            i <= entries@.len(),
            all == entry_views(entries@),
            forall|k: int| 0 <= k < order@.len() ==> (#[trigger] order@[k]) < i,
            forall|k: int|
                0 <= k < order@.len() ==> is_key_file(all[(#[trigger] order@[k]) as int]),
            picked(all, order@) == key_files(all.take(i as int)),
        decreases entries@.len() - i,
    {
        let ghost had = picked(all, order@);
        let ghost one = all[i as int];
        proof {
            assert(all.take(i + 1).drop_last() =~= all.take(i as int));
            assert(all.take(i + 1).last() == one);
        }
        if entries[i].is_key_file() {
            let mut p: usize = order.len();
            while p > 0 && !entries[order[p - 1]].name_at_most(&entries[i])
                invariant
                    p <= order@.len(),
                    i < entries@.len(),
                    all == entry_views(entries@),
                    is_key_file(all[i as int]),
                    one == all[i as int],
                    had == picked(all, order@),
                    forall|k: int| 0 <= k < order@.len() ==> (#[trigger] order@[k]) < i,
                    forall|k: int|
                        0 <= k < order@.len() ==> is_key_file(all[(#[trigger] order@[k]) as int]),
                    forall|k: int| p <= k < had.len() ==> !name_le(#[trigger] had[k], one),
                ensures
                    p <= order@.len(),
                    p > 0 ==> name_le(had[p - 1], one),
                    forall|k: int| p <= k < had.len() ==> !name_le(#[trigger] had[k], one),
                decreases p,
            {
                p = p - 1;
            }
            let ghost before = order@;
            order.insert(p, i);
            proof {
                lemma_with_file_at(had, one, p as int);
                assert(picked(all, order@) =~= had.insert(p as int, one));
                assert forall|k: int| 0 <= k < order@.len() implies (#[trigger] order@[k]) < i + 1
                    && is_key_file(all[order@[k] as int]) by {
                    if k < p {
                        assert(order@[k] == before[k]);
                    } else if k > p {
                        assert(order@[k] == before[k - 1]);
                    }
                }
            }
        }
        i = i + 1;
    }
    assert(all.take(i as int) =~= all);
    order
}

impl EchKeySet {
    /// Load the key pairs of all key files of a directory, in ascending order of
    /// their names. Places in errors are places in that order.
    pub fn load_directory(entries: &[DirEntry]) -> (r: Result<EchKeySet, KeySetError>)
        ensures
            ({
                let files = key_files(entry_views(entries@));
                match r {
                    Err(KeySetError::Unreadable { index }) => first_unreadable(
                        files,
                        index as int,
                    ),
                    _ => {
                        &&& forall|i: int|
                            0 <= i < files.len() ==> (#[trigger] files[i]).contents is Some
                        &&& loads(contents_of(files), r)
                    },
                }
            }),
    {
        let ghost files = key_files(entry_views(entries@));
        let order = file_order(entries);
        let mut bundles: Vec<Vec<u8>> = Vec::new();
        let mut i: usize = 0;
        while i < order.len()
            invariant
                i <= order@.len(),
                files == key_files(entry_views(entries@)),
                files == picked(entry_views(entries@), order@),
                forall|k: int| 0 <= k < order@.len() ==> (#[trigger] order@[k]) < entries@.len(),
                bundles@.len() == i,
                forall|k: int| 0 <= k < i ==> (#[trigger] files[k]).contents is Some,
                forall|k: int|
                    0 <= k < i ==> files_of(bundles@)[k] == (#[trigger] files[k]).contents->0,
            decreases order@.len() - i,
        {
            assert(files[i as int] == entries@[order@[i as int] as int]@);
            match &entries[order[i]].contents {
                Some(c) => {
                    let ghost before = files_of(bundles@);
                    let bytes = copy_of(c, 0, c.len());
                    assert(bytes@ =~= c@);
                    bundles.push(bytes);
                    assert forall|k: int| 0 <= k < i + 1 implies files_of(bundles@)[k] == (
                    #[trigger] files[k]).contents->0 by {
                        if k < i {
                            assert(files_of(bundles@)[k] == before[k]);
                        }
                    }
                },
                None => {
                    return Err(KeySetError::Unreadable { index: i });
                },
            }
            i = i + 1;
        }
        assert(files_of(bundles@) =~= contents_of(files));
        EchKeySet::load(&bundles)
    }
}

proof fn lemma_with_file_at(s: Seq<DirEntryView>, e: DirEntryView, p: int)
    requires
        0 <= p <= s.len(),
        p > 0 ==> name_le(s[p - 1], e),
        forall|k: int| p <= k < s.len() ==> !name_le(#[trigger] s[k], e),
    ensures
        with_file(s, e) == s.insert(p, e),
    decreases s.len(),
{
    if p == s.len() {
        assert(s.insert(p, e) =~= s.push(e));
    } else {
        let t = s.drop_last();
        assert(!name_le(s[s.len() - 1], e));
        assert forall|k: int| p <= k < t.len() implies !name_le(#[trigger] t[k], e) by {
            assert(t[k] == s[k]);
        }
        lemma_with_file_at(t, e, p);
        assert(s.insert(p, e) =~= t.insert(p, e).push(s.last()));
    }
}

/// Whether files are in ascending order of their names.
pub open spec fn ascending(files: Seq<DirEntryView>) -> bool {
    forall|i: int, j: int|
        0 <= i < j < files.len() ==> name_le(#[trigger] files[i], #[trigger] files[j])
}

/// Whether the key files among some entries have different names, as the entries of a
/// directory do.
pub open spec fn distinct_names(entries: Seq<DirEntryView>) -> bool {
    forall|i: int, j: int|
        0 <= i < j < entries.len() && is_key_file(#[trigger] entries[i]) && is_key_file(
            #[trigger] entries[j],
        ) ==> entries[i].name != entries[j].name
}

proof fn lemma_with_file(s: Seq<DirEntryView>, e: DirEntryView)
    requires
        ascending(s),
    ensures
        ascending(with_file(s, e)),
        with_file(s, e).len() == s.len() + 1,
        forall|x: DirEntryView| #[trigger]
            with_file(s, e).contains(x) <==> s.contains(x) || x == e,
    decreases s.len(),
{
    let r = with_file(s, e);
    if s.len() == 0 || name_le(s.last(), e) {
        assert forall|i: int, j: int| 0 <= i < j < r.len() implies name_le(
            #[trigger] r[i],
            #[trigger] r[j],
        ) by {
            if j == s.len() {
                if i < s.len() - 1 {
                    assert(name_le(s[i], s[s.len() - 1]));
                    lemma_bytes_transitive(name_bytes(s[i]), name_bytes(s.last()), name_bytes(e));
                }
            }
        }
        lemma_push_contains(s, e);
    } else {
        let t = s.drop_last();
        assert(ascending(t)) by {
            assert forall|i: int, j: int| 0 <= i < j < t.len() implies name_le(
                #[trigger] t[i],
                #[trigger] t[j],
            ) by {
                assert(t[i] == s[i] && t[j] == s[j]);
            }
        }
        lemma_with_file(t, e);
        lemma_bytes_total(name_bytes(s.last()), name_bytes(e));
        let u = with_file(t, e);
        assert forall|i: int, j: int| 0 <= i < j < r.len() implies name_le(
            #[trigger] r[i],
            #[trigger] r[j],
        ) by {
            if j == u.len() {
                assert(u.contains(u[i]));
                if u[i] != e {
                    let k = choose|k: int| 0 <= k < t.len() && t[k] == u[i];
                    assert(name_le(s[k], s[s.len() - 1]));
                }
            } else {
                assert(name_le(u[i], u[j]));
            }
        }
        lemma_push_contains(u, s.last());
        lemma_push_contains(t, s.last());
        assert(t.push(s.last()) =~= s);
    }
}

proof fn lemma_push_contains(s: Seq<DirEntryView>, e: DirEntryView)
    ensures
        forall|x: DirEntryView| #[trigger] s.push(e).contains(x) <==> s.contains(x) || x == e,
{
    assert forall|x: DirEntryView| #[trigger] s.push(e).contains(x) <==> s.contains(x) || x
        == e by {
        if s.contains(x) {
            let k = choose|k: int| 0 <= k < s.len() && s[k] == x;
            assert(s.push(e)[k] == x);
        }
        assert(s.push(e)[s.len() as int] == e);
    }
}

/// The key files come in ascending order of their names, and they are the entries that
/// are key files.
pub proof fn lemma_key_files(entries: Seq<DirEntryView>)
    ensures
        ascending(key_files(entries)),
        key_files(entries).len() <= entries.len(),
        forall|x: DirEntryView| #[trigger]
            key_files(entries).contains(x) <==> entries.contains(x) && is_key_file(x),
    decreases entries.len(),
{
    if entries.len() > 0 {
        let before = entries.drop_last();
        lemma_key_files(before);
        lemma_with_file(key_files(before), entries.last());
        lemma_push_contains(before, entries.last());
        assert(before.push(entries.last()) =~= entries);
    }
}

/// Whether files are in ascending order of their names, all of which differ.
spec fn strictly_ascending(files: Seq<DirEntryView>) -> bool {
    &&& ascending(files)
    &&& forall|i: int, j: int|
        0 <= i < j < files.len() ==> name_bytes(#[trigger] files[i]) != name_bytes(
            #[trigger] files[j],
        )
}

proof fn lemma_names_differ(a: DirEntryView, b: DirEntryView)
    requires
        is_key_file(a),
        is_key_file(b),
        a.name != b.name,
    ensures
        name_bytes(a) != name_bytes(b),
{
    encode_utf8_decode_utf8(a.name->0);
    encode_utf8_decode_utf8(b.name->0);
}

proof fn lemma_with_file_strict(s: Seq<DirEntryView>, e: DirEntryView)
    requires
        strictly_ascending(s),
        forall|i: int| 0 <= i < s.len() ==> name_bytes(#[trigger] s[i]) != name_bytes(e),
    ensures
        strictly_ascending(with_file(s, e)),
    decreases s.len(),
{
    lemma_with_file(s, e);
    let r = with_file(s, e);
    if s.len() == 0 || name_le(s.last(), e) {
    } else {
        let t = s.drop_last();
        assert(strictly_ascending(t)) by {
            assert forall|i: int, j: int| 0 <= i < j < t.len() implies name_le(
                #[trigger] t[i],
                #[trigger] t[j],
            ) && name_bytes(t[i]) != name_bytes(t[j]) by {
                assert(t[i] == s[i] && t[j] == s[j]);
            }
        }
        lemma_with_file_strict(t, e);
        lemma_with_file(t, e);
        let u = with_file(t, e);
        assert forall|i: int, j: int| 0 <= i < j < r.len() implies name_bytes(#[trigger] r[i])
            != name_bytes(#[trigger] r[j]) by {
            if j == u.len() {
                assert(u.contains(u[i]));
                assert(name_bytes(s[s.len() - 1]) != name_bytes(e));
                if u[i] != e {
                    let k = choose|k: int| 0 <= k < t.len() && t[k] == u[i];
                    assert(s[k] == u[i]);
                }
            }
        }
    }
}

proof fn lemma_key_files_strict(entries: Seq<DirEntryView>)
    requires
        distinct_names(entries),
    ensures
        strictly_ascending(key_files(entries)),
    decreases entries.len(),
{
    if entries.len() > 0 {
        let before = entries.drop_last();
        let e = entries.last();
        assert(distinct_names(before)) by {
            assert forall|i: int, j: int|
                0 <= i < j < before.len() && is_key_file(#[trigger] before[i]) && is_key_file(
                    #[trigger] before[j],
                ) implies before[i].name != before[j].name by {
                assert(before[i] == entries[i] && before[j] == entries[j]);
            }
        }
        lemma_key_files_strict(before);
        lemma_key_files(before);
        if is_key_file(e) {
            let s = key_files(before);
            assert forall|i: int| 0 <= i < s.len() implies name_bytes(#[trigger] s[i])
                != name_bytes(e) by {
                assert(s.contains(s[i]));
                let k = choose|k: int| 0 <= k < before.len() && before[k] == s[i];
                assert(entries[k] == s[i]);
                assert(entries[k].name != entries[entries.len() - 1].name);
                lemma_names_differ(s[i], e);
            }
            lemma_with_file_strict(s, e);
        }
    }
}

proof fn lemma_strict_unique(a: Seq<DirEntryView>, b: Seq<DirEntryView>)
    requires
        strictly_ascending(a),
        strictly_ascending(b),
        forall|x: DirEntryView| #[trigger] a.contains(x) <==> b.contains(x),
    ensures
        a == b,
    decreases a.len(),
{
    if a.len() == 0 {
        if b.len() > 0 {
            assert(b.contains(b[0]));
            assert(a.contains(b[0]));
        }
        assert(a =~= b);
    } else {
        assert(a.contains(a[0]));
        assert(b.len() > 0);
        let n = a.len() - 1;
        let m = b.len() - 1;
        assert(a.contains(a[n]));
        assert(b.contains(b[m]));
        assert(a.contains(b[m]));
        let p = choose|p: int| 0 <= p < b.len() && b[p] == a[n];
        let q = choose|q: int| 0 <= q < a.len() && a[q] == b[m];
        assert(a[n] == b[m]) by {
            if p != m {
                assert(name_le(b[p], b[m]));
                if q != n {
                    assert(name_le(a[q], a[n]));
                    lemma_bytes_antisymmetric(name_bytes(a[n]), name_bytes(b[m]));
                    assert(name_bytes(b[p]) != name_bytes(b[m]));
                }
            }
        }
        let s = a.drop_last();
        let t = b.drop_last();
        lemma_drop_strict(a);
        lemma_drop_strict(b);
        lemma_push_contains(s, a.last());
        lemma_push_contains(t, b.last());
        assert(s.push(a.last()) =~= a);
        assert(t.push(b.last()) =~= b);
        assert forall|x: DirEntryView| #[trigger] s.contains(x) <==> t.contains(x) by {
            assert(a.contains(x) <==> b.contains(x));
        }
        lemma_strict_unique(s, t);
    }
}

proof fn lemma_drop_strict(a: Seq<DirEntryView>)
    requires
        strictly_ascending(a),
        a.len() > 0,
    ensures
        strictly_ascending(a.drop_last()),
        !a.drop_last().contains(a.last()),
{
    let s = a.drop_last();
    assert forall|i: int, j: int| 0 <= i < j < s.len() implies name_le(
        #[trigger] s[i],
        #[trigger] s[j],
    ) && name_bytes(s[i]) != name_bytes(s[j]) by {
        assert(s[i] == a[i] && s[j] == a[j]);
    }
    if s.contains(a.last()) {
        let k = choose|k: int| 0 <= k < s.len() && s[k] == a.last();
        assert(name_bytes(a[k]) != name_bytes(a[a.len() - 1]));
    }
}

/// The order in which a directory lists its entries does not matter, nor do entries
/// that are no key files: two listings with the same key files, no two of which have
/// one name, give the same files in the same order.
pub proof fn lemma_listing_order_ignored(a: Seq<DirEntryView>, b: Seq<DirEntryView>)
    requires
        distinct_names(a),
        distinct_names(b),
        forall|x: DirEntryView|
            is_key_file(x) ==> (#[trigger] a.contains(x) <==> #[trigger] b.contains(x)),
    ensures
        key_files(a) == key_files(b),
{
    lemma_key_files(a);
    lemma_key_files(b);
    lemma_key_files_strict(a);
    lemma_key_files_strict(b);
    assert forall|x: DirEntryView| #[trigger] key_files(a).contains(x) <==> key_files(b).contains(
        x,
    ) by {
        if is_key_file(x) {
            assert(a.contains(x) <==> b.contains(x));
        }
    }
    lemma_strict_unique(key_files(a), key_files(b));
}

/// A key file is a regular file whose name is text and does not begin with a dot.
pub proof fn lemma_what_is_a_key_file(e: DirEntryView, name: Seq<char>)
    ensures
        !e.is_file ==> !is_key_file(e),
        e.name is None ==> !is_key_file(e),
        e.name == Some(seq!['.'] + name) ==> !is_key_file(e),
        e.is_file && e.name == Some(name) && (name.len() == 0 || name[0] != '.') ==> is_key_file(
            e,
        ),
{
}

/// Key files come in ascending order of the bytes of their names.
pub proof fn lemma_key_files_in_order(entries: Seq<DirEntryView>, i: int, j: int)
    requires
        0 <= i < j < key_files(entries).len(),
    ensures
        key_files(entries)[i].name matches Some(a) && (key_files(entries)[j].name matches Some(b)
            && bytes_le(encode_utf8(a), encode_utf8(b))),
{
    let f = key_files(entries);
    lemma_key_files(entries);
    assert(f.contains(f[i]) && f.contains(f[j]));
    assert(name_le(f[i], f[j]));
}

/// What the files hold is handed on file by file, in their order.
pub proof fn lemma_contents_in_order(files: Seq<DirEntryView>, i: int)
    requires
        0 <= i < files.len(),
        files[i].contents is Some,
    ensures
        contents_of(files).len() == files.len(),
        Some(contents_of(files)[i]) == files[i].contents,
{
}

/// No key file is lost: there are as many files as entries that are key files.
pub proof fn lemma_key_files_counted(entries: Seq<DirEntryView>, e: DirEntryView)
    ensures
        key_files(entries.push(e)).len() == key_files(entries).len() + if is_key_file(e) {
            1nat
        } else {
            0nat
        },
        key_files(Seq::empty()).len() == 0,
{
    assert(entries.push(e).drop_last() =~= entries);
    lemma_key_files(entries);
    lemma_with_file(key_files(entries), e);
}

/// Entries are taken one by one, in their order, with all that is known of them.
pub proof fn lemma_entries_taken(s: Seq<DirEntry>, i: int)
    requires
        0 <= i < s.len(),
    ensures
        entry_views(s).len() == s.len(),
        ({
            let v = entry_views(s)[i];
            &&& v.is_file == s[i].is_file
            &&& v.name is Some <==> s[i].name is Some
            &&& v.name matches Some(n) ==> n == s[i].name->0@
            &&& v.contents is Some <==> s[i].contents is Some
            &&& v.contents matches Some(c) ==> c == s[i].contents->0@
        }),
{
}

/// The first file that cannot be read is the one before which all can be.
pub proof fn lemma_first_unreadable(files: Seq<DirEntryView>, i: int, j: int)
    requires
        first_unreadable(files, i),
    ensures
        0 <= i < files.len(),
        files[i].contents is None,
        0 <= j < i ==> files[j].contents is Some,
{
}

} // verus!
