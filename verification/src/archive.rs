//! The portable archive: exporting templates into a single entry list
//! and planning the import of such a list back into the store.
//!
//! An archive is an ordered list of entries; the first path segment of
//! each names the template it belongs to.  Export serializes selected
//! templates, each under its own name.  Import first removes every
//! template named by a top-level entry of the archive — a full replace,
//! never a merge — and then recreates every entry, skipping any whose
//! embedded path is unsafe.

use vstd::prelude::*;
use crate::chars::to_chars;
use crate::materializer::contains_string;
use crate::walker::seg_view;

verus! {

/// One entry of an archive: a path inside it, and either a directory
/// marker or file bytes.
pub struct ArchiveEntry {
    /// Forward-slash path segments inside the archive.
    pub segments: Vec<String>,
    pub is_dir: bool,
    /// The file bytes; empty for a directory.
    pub data: Vec<u8>,
}

/// A template selected for export: its name and its entries, each
/// relative to the template root.
pub struct TemplateTree {
    pub name: String,
    pub entries: Vec<ArchiveEntry>,
}

/// One step of an import: remove a template wholesale, create a
/// directory (with its parents), or write a file.
pub enum ImportAction {
    RemoveTemplate { name: String },
    EnsureDir { segments: Vec<String> },
    WriteFile { segments: Vec<String>, data: Vec<u8> },
}

/// The mathematical shape of an archive entry.
#[verifier::ext_equal]
pub struct AEntryModel {
    pub segments: Seq<Seq<char>>,
    pub is_dir: bool,
    pub data: Seq<u8>,
}

impl View for ArchiveEntry {
    type V = AEntryModel;

    open spec fn view(&self) -> AEntryModel {
        AEntryModel { segments: seg_view(self.segments@), is_dir: self.is_dir, data: self.data@ }
    }
}

/// The mathematical shape of an import step.
#[verifier::ext_equal]
pub enum ImportActionModel {
    Remove { name: Seq<char> },
    EnsureDir { segments: Seq<Seq<char>> },
    WriteFile { segments: Seq<Seq<char>>, data: Seq<u8> },
}

impl View for ImportAction {
    type V = ImportActionModel;

    open spec fn view(&self) -> ImportActionModel {
        match self {
            ImportAction::RemoveTemplate { name } => ImportActionModel::Remove { name: name@ },
            ImportAction::EnsureDir { segments } => ImportActionModel::EnsureDir {
                segments: seg_view(segments@),
            },
            ImportAction::WriteFile { segments, data } => ImportActionModel::WriteFile {
                segments: seg_view(segments@),
                data: data@,
            },
        }
    }
}

/// A path segment that can be recreated safely: non-empty, not a dot
/// or dot-dot, and free of separators.
pub open spec fn safe_seg(s: Seq<char>) -> bool {
    &&& s.len() > 0
    &&& s != seq!['.']
    &&& s != seq!['.', '.']
    &&& !s.contains('/')
    &&& !s.contains('\\')
}

/// An embedded path that can be recreated safely under the store.
pub open spec fn safe_path(ss: Seq<Seq<char>>) -> bool {
    ss.len() >= 1 && forall|i: int| 0 <= i < ss.len() ==> safe_seg(#[trigger] ss[i])
}

/// Whether this segment can be recreated safely.
fn seg_is_safe(s: &String) -> (r: bool)
    ensures
        r == safe_seg(s@),
{
    let v = to_chars(s.as_str());
    let n = v.len();
    if n == 0 {
        return false;
    }
    if n == 1 && v[0] == '.' {
        proof {
            assert(s@ =~= seq!['.']);
        }
        return false;
    }
    if n == 2 && v[0] == '.' && v[1] == '.' {
        proof {
            assert(s@ =~= seq!['.', '.']);
        }
        return false;
    }
    let mut i: usize = 0;
    while i < n
        invariant
            n == v@.len(),
            v@ == s@,
            i <= n,
            forall|k: int| 0 <= k < i ==> s@[k] != '/' && s@[k] != '\\',
        decreases n - i,
    {
        if v[i] == '/' || v[i] == '\\' {
            proof {
                assert(s@.contains(s@[i as int]));
            }
            return false;
        }
        i = i + 1;
    }
    proof {
        if s@.contains('/') {
            let k = choose|k: int| 0 <= k < s@.len() && s@[k] == '/';
            assert(false);
        }
        if s@.contains('\\') {
            let k = choose|k: int| 0 <= k < s@.len() && s@[k] == '\\';
            assert(false);
        }
        if s@ =~= seq!['.'] {
            assert(false);
        }
        if s@ =~= seq!['.', '.'] {
            assert(false);
        }
    }
    true
}

/// Whether every segment of this path is safe.
fn path_is_safe(ss: &Vec<String>) -> (r: bool)
    ensures
        r == safe_path(seg_view(ss@)),
{
    if ss.len() == 0 {
        return false;
    }
    let mut i: usize = 0;
    while i < ss.len()
        invariant
            i <= ss@.len(),
            ss@.len() >= 1,
            forall|k: int| 0 <= k < i ==> safe_seg(#[trigger] seg_view(ss@)[k]),
        decreases ss@.len() - i,
    {
        let ok = seg_is_safe(&ss[i]);
        proof {
            assert(seg_view(ss@)[i as int] == ss@[i as int]@);
        }
        if !ok {
            return false;
        }
        i = i + 1;
    }
    true
}

/// The template names that an import of `a` (from index `i` on, with
/// `seen` already handled) must remove before writing: each name whose
/// safe top-level entry appears in the archive, once, in first-seen
/// order.
pub open spec fn removal_names(a: Seq<AEntryModel>, i: int, seen: Seq<Seq<char>>) -> Seq<Seq<char>>
    decreases a.len() - i,
{
    if i < 0 || i >= a.len() {
        seq![]
    } else if a[i].segments.len() == 1 && safe_path(a[i].segments) && !seen.contains(
        a[i].segments[0],
    ) {
        seq![a[i].segments[0]] + removal_names(a, i + 1, seen.push(a[i].segments[0]))
    } else {
        removal_names(a, i + 1, seen)
    }
}

/// The creation step for one safe archive entry.
pub open spec fn create_of(m: AEntryModel) -> ImportActionModel {
    if m.is_dir {
        ImportActionModel::EnsureDir { segments: m.segments }
    } else {
        ImportActionModel::WriteFile { segments: m.segments, data: m.data }
    }
}

/// The creation steps of an import of `a` from index `i` on: one per
/// entry, in archive order, unsafe entries skipped.
pub open spec fn import_creates(a: Seq<AEntryModel>, i: int) -> Seq<ImportActionModel>
    decreases a.len() - i,
{
    if i < 0 || i >= a.len() {
        seq![]
    } else if !safe_path(a[i].segments) {
        import_creates(a, i + 1)
    } else {
        seq![create_of(a[i])] + import_creates(a, i + 1)
    }
}

/// The names an import of `a` removes, in first-seen order.
pub open spec fn replaced_names(a: Seq<AEntryModel>) -> Seq<Seq<char>> {
    removal_names(a, 0, seq![])
}

/// The whole import: every removal first, then every creation.
pub open spec fn import_plan_spec(a: Seq<AEntryModel>) -> Seq<ImportActionModel> {
    replaced_names(a).map_values(|n: Seq<char>| ImportActionModel::Remove { name: n })
        + import_creates(a, 0)
}

/// Plan the import of an archive: remove every template that the
/// archive replaces — each name with a safe top-level entry, once —
/// and then recreate every safe entry in archive order.  Entries with
/// an unsafe embedded path are skipped, never written.
pub fn plan_import(archive: &Vec<ArchiveEntry>) -> (r: Vec<ImportAction>)
    ensures
        r@.map_values(|x: ImportAction| x@) == import_plan_spec(
            archive@.map_values(|e: ArchiveEntry| e@),
        ),
{
    let ghost av = archive@.map_values(|e: ArchiveEntry| e@);
    let mut removes: Vec<ImportAction> = Vec::new();
    let mut seen: Vec<String> = Vec::new();
    proof {
        assert(removes@.map_values(|x: ImportAction| x@) =~= Seq::<ImportActionModel>::empty());
        assert(seen@.map_values(|s: String| s@) =~= Seq::<Seq<char>>::empty());
        assert(removal_names(av, 0, seq![]).map_values(
            |n: Seq<char>| ImportActionModel::Remove { name: n },
        ) =~= Seq::<ImportActionModel>::empty() + removal_names(
            av,
            0,
            seen@.map_values(|s: String| s@),
        ).map_values(|n: Seq<char>| ImportActionModel::Remove { name: n }));
    }
    let mut i: usize = 0;
    while i < archive.len()
        invariant
            i <= archive@.len(),
            av == archive@.map_values(|e: ArchiveEntry| e@),
            av.len() == archive@.len(),
            removal_names(av, 0, seq![]).map_values(
                |n: Seq<char>| ImportActionModel::Remove { name: n },
            ) == removes@.map_values(|x: ImportAction| x@) + removal_names(
                av,
                i as int,
                seen@.map_values(|s: String| s@),
            ).map_values(|n: Seq<char>| ImportActionModel::Remove { name: n }),
        decreases archive@.len() - i,
    {
        let e = &archive[i];
        proof {
            assert(av[i as int] == archive@[i as int]@);
        }
        let top = e.segments.len() == 1 && path_is_safe(&e.segments);
        if top {
            let name = &e.segments[0];
            proof {
                assert(av[i as int].segments[0] == name@);
            }
            if !contains_string(&seen, name) {
                let ghost prevr = removes@;
                let ghost prevs = seen@;
                removes.push(ImportAction::RemoveTemplate { name: name.clone() });
                seen.push(name.clone());
                proof {
                    assert(seen@.map_values(|s: String| s@) =~= prevs.map_values(
                        |s: String| s@,
                    ).push(name@));
                    assert(removes@.map_values(|x: ImportAction| x@) =~= prevr.map_values(
                        |x: ImportAction| x@,
                    ).push(ImportActionModel::Remove { name: name@ }));
                    assert(removal_names(av, i as int, prevs.map_values(|s: String| s@))
                        =~= seq![name@] + removal_names(
                        av,
                        i as int + 1,
                        seen@.map_values(|s: String| s@),
                    ));
                    assert(prevr.map_values(|x: ImportAction| x@) + (seq![name@]
                        + removal_names(
                        av,
                        i as int + 1,
                        seen@.map_values(|s: String| s@),
                    )).map_values(|n: Seq<char>| ImportActionModel::Remove { name: n })
                        =~= removes@.map_values(|x: ImportAction| x@) + removal_names(
                        av,
                        i as int + 1,
                        seen@.map_values(|s: String| s@),
                    ).map_values(|n: Seq<char>| ImportActionModel::Remove { name: n }));
                }
            }
        }
        i = i + 1;
    }
    let ghost seenv = seen@.map_values(|s: String| s@);
    let mut r = removes;
    proof {
        assert(removal_names(av, i as int, seenv).map_values(
            |n: Seq<char>| ImportActionModel::Remove { name: n },
        ) =~= Seq::<ImportActionModel>::empty());
        assert(r@.map_values(|x: ImportAction| x@) =~= removal_names(av, 0, seq![]).map_values(
            |n: Seq<char>| ImportActionModel::Remove { name: n },
        ));
        assert(r@.map_values(|x: ImportAction| x@) + import_creates(av, 0) =~= import_plan_spec(
            av,
        ));
    }
    let mut j: usize = 0;
    while j < archive.len()
        invariant
            j <= archive@.len(),
            av == archive@.map_values(|e: ArchiveEntry| e@),
            av.len() == archive@.len(),
            import_plan_spec(av) == r@.map_values(|x: ImportAction| x@) + import_creates(
                av,
                j as int,
            ),
        decreases archive@.len() - j,
    {
        let e = &archive[j];
        proof {
            assert(av[j as int] == archive@[j as int]@);
        }
        if path_is_safe(&e.segments) {
            let ghost prevr = r@;
            let segments = clone_strings(&e.segments);
            if e.is_dir {
                r.push(ImportAction::EnsureDir { segments });
            } else {
                let data = clone_bytes(&e.data);
                r.push(ImportAction::WriteFile { segments, data });
            }
            proof {
                assert(r@.map_values(|x: ImportAction| x@) =~= prevr.map_values(
                    |x: ImportAction| x@,
                ).push(create_of(av[j as int])));
                assert(prevr.map_values(|x: ImportAction| x@) + (seq![create_of(av[j as int])]
                    + import_creates(av, j as int + 1)) =~= r@.map_values(|x: ImportAction| x@)
                    + import_creates(av, j as int + 1));
            }
        }
        j = j + 1;
    }
    proof {
        assert(import_creates(av, j as int) =~= Seq::<ImportActionModel>::empty());
        assert(import_plan_spec(av) =~= r@.map_values(|x: ImportAction| x@));
    }
    r
}

/// The root marker an export writes for a template.
pub open spec fn root_entry_model(name: Seq<char>) -> AEntryModel {
    AEntryModel { segments: seq![name], is_dir: true, data: seq![] }
}

/// An entry of a template, as it stands in the archive: its path
/// prefixed by the template's name.
pub open spec fn prefixed_model(name: Seq<char>, m: AEntryModel) -> AEntryModel {
    AEntryModel { segments: seq![name] + m.segments, is_dir: m.is_dir, data: m.data }
}

/// The archive entries an export writes for one template: its root
/// marker, then each of its entries under its name, in order.
pub open spec fn export_tree_spec(t: TemplateTree) -> Seq<AEntryModel> {
    seq![root_entry_model(t.name@)] + t.entries@.map_values(
        |e: ArchiveEntry| prefixed_model(t.name@, e@),
    )
}

/// The archive entries an export writes for the trees from `i` on.
pub open spec fn export_spec(ts: Seq<TemplateTree>, i: int) -> Seq<AEntryModel>
    decreases ts.len() - i,
{
    if i < 0 || i >= ts.len() {
        seq![]
    } else {
        export_tree_spec(ts[i]) + export_spec(ts, i + 1)
    }
}

/// A copy of a string vector.
fn clone_strings(v: &Vec<String>) -> (r: Vec<String>)
    ensures
        r@ == v@,
{
    let mut r: Vec<String> = Vec::new();
    let mut i: usize = 0;
    while i < v.len()
        invariant
            i <= v@.len(),
            r@ == v@.subrange(0, i as int),
        decreases v@.len() - i,
    {
        r.push(v[i].clone());
        i = i + 1;
        proof {
            assert(r@ =~= v@.subrange(0, i as int));
        }
    }
    proof {
        assert(r@ =~= v@);
    }
    r
}

/// A copy of a byte vector.
fn clone_bytes(v: &Vec<u8>) -> (r: Vec<u8>)
    ensures
        r@ == v@,
{
    let mut r: Vec<u8> = Vec::new();
    let mut i: usize = 0;
    while i < v.len()
        invariant
            i <= v@.len(),
            r@ == v@.subrange(0, i as int),
        decreases v@.len() - i,
    {
        r.push(v[i]);
        i = i + 1;
        proof {
            assert(r@ =~= v@.subrange(0, i as int));
        }
    }
    proof {
        assert(r@ =~= v@);
    }
    r
}

/// The archive entries for one template.
fn export_tree(t: &TemplateTree) -> (r: Vec<ArchiveEntry>)
    ensures
        r@.map_values(|e: ArchiveEntry| e@) == export_tree_spec(*t),
{
    let ghost goal = export_tree_spec(*t);
    let mut r: Vec<ArchiveEntry> = Vec::new();
    let root_segments = vec![t.name.clone()];
    r.push(ArchiveEntry { segments: root_segments, is_dir: true, data: Vec::new() });
    proof {
        assert(seg_view(seq![t.name]) =~= seq![t.name@]);
        assert(r@.map_values(|e: ArchiveEntry| e@) =~~= goal.subrange(0, 1));
        assert(goal.len() == 1 + t.entries@.len());
    }
    let mut j: usize = 0;
    while j < t.entries.len()
        invariant
            j <= t.entries@.len(),
            goal == export_tree_spec(*t),
            goal.len() == 1 + t.entries@.len(),
            r@.map_values(|e: ArchiveEntry| e@) == goal.subrange(0, j as int + 1),
        decreases t.entries@.len() - j,
    {
        let e = &t.entries[j];
        let mut segments: Vec<String> = vec![t.name.clone()];
        let mut rest = clone_strings(&e.segments);
        segments.append(&mut rest);
        let data = clone_bytes(&e.data);
        let ghost prevr = r@;
        r.push(ArchiveEntry { segments, is_dir: e.is_dir, data });
        proof {
            assert(seg_view(seq![t.name] + e.segments@) =~= seq![t.name@] + seg_view(
                e.segments@,
            ));
            assert(goal[j as int + 1] == prefixed_model(t.name@, t.entries@[j as int]@));
            assert(r@.map_values(|e: ArchiveEntry| e@) =~~= prevr.map_values(
                |e: ArchiveEntry| e@,
            ).push(prefixed_model(t.name@, t.entries@[j as int]@)));
            assert(goal.subrange(0, j as int + 1).push(goal[j as int + 1]) =~= goal.subrange(
                0,
                j as int + 2,
            ));
        }
        j = j + 1;
    }
    proof {
        assert(goal.subrange(0, goal.len() as int) =~= goal);
    }
    r
}

/// Serialize the selected templates into one archive entry list: each
/// template's root marker and entries, template after template.  An
/// empty selection yields a valid, empty archive.
pub fn build_export(trees: &Vec<TemplateTree>) -> (r: Vec<ArchiveEntry>)
    ensures
        r@.map_values(|e: ArchiveEntry| e@) == export_spec(trees@, 0),
        trees@.len() == 0 ==> r@.len() == 0,
{
    let mut r: Vec<ArchiveEntry> = Vec::new();
    proof {
        assert(r@.map_values(|e: ArchiveEntry| e@) =~= Seq::<AEntryModel>::empty());
        assert(Seq::<AEntryModel>::empty() + export_spec(trees@, 0) =~= export_spec(trees@, 0));
    }
    let mut i: usize = 0;
    while i < trees.len()
        invariant
            i <= trees@.len(),
            export_spec(trees@, 0) == r@.map_values(|e: ArchiveEntry| e@) + export_spec(
                trees@,
                i as int,
            ),
        decreases trees@.len() - i,
    {
        let mut part = export_tree(&trees[i]);
        let ghost rv = r@;
        let ghost partv = part@;
        r.append(&mut part);
        proof {
            assert(r@.map_values(|e: ArchiveEntry| e@) =~= rv.map_values(|e: ArchiveEntry| e@)
                + partv.map_values(|e: ArchiveEntry| e@));
            assert(rv.map_values(|e: ArchiveEntry| e@) + export_spec(trees@, i as int)
                =~= r@.map_values(|e: ArchiveEntry| e@) + export_spec(trees@, i as int + 1));
        }
        i = i + 1;
    }
    proof {
        assert(export_spec(trees@, i as int) =~= Seq::<AEntryModel>::empty());
        assert(export_spec(trees@, 0) =~= r@.map_values(|e: ArchiveEntry| e@));
    }
    r
}


/// Exporting nothing yields an empty archive, and importing an empty
/// archive plans nothing: it is a no-op on any store.
pub proof fn lemma_empty_archive()
    ensures
        export_spec(Seq::<TemplateTree>::empty(), 0) == Seq::<AEntryModel>::empty(),
        import_plan_spec(Seq::<AEntryModel>::empty()) == Seq::<ImportActionModel>::empty(),
{
    assert(export_spec(Seq::<TemplateTree>::empty(), 0) =~= Seq::<AEntryModel>::empty());
    assert(removal_names(Seq::<AEntryModel>::empty(), 0, seq![]) =~= Seq::<Seq<char>>::empty());
    assert(import_creates(Seq::<AEntryModel>::empty(), 0) =~= Seq::<ImportActionModel>::empty());
    assert(import_plan_spec(Seq::<AEntryModel>::empty()) =~= Seq::<ImportActionModel>::empty());
}

proof fn lemma_removals_skip(a: Seq<AEntryModel>, i: int, seen: Seq<Seq<char>>)
    requires
        0 <= i <= a.len(),
        forall|k: int| i <= k < a.len() ==> (#[trigger] a[k]).segments.len() != 1,
    ensures
        removal_names(a, i, seen) == Seq::<Seq<char>>::empty(),
    decreases a.len() - i,
{
    if i < a.len() {
        lemma_removals_skip(a, i + 1, seen);
    }
    assert(removal_names(a, i, seen) =~= Seq::<Seq<char>>::empty());
}

proof fn lemma_creates_suffix(t: TemplateTree, k: int)
    requires
        safe_seg(t.name@),
        forall|j: int|
            0 <= j < t.entries@.len() ==> safe_path((#[trigger] t.entries@[j])@.segments),
        1 <= k <= t.entries@.len() + 1,
    ensures
        import_creates(export_tree_spec(t), k) == t.entries@.map_values(
            |e: ArchiveEntry| create_of(prefixed_model(t.name@, e@)),
        ).subrange(k - 1, t.entries@.len() as int),
    decreases t.entries@.len() + 1 - k,
{
    let a = export_tree_spec(t);
    let mapped = t.entries@.map_values(|e: ArchiveEntry| create_of(prefixed_model(t.name@, e@)));
    assert(a.len() == 1 + t.entries@.len());
    if k == t.entries@.len() + 1 {
        assert(import_creates(a, k) =~= mapped.subrange(k - 1, t.entries@.len() as int));
    } else {
        assert(a[k] == prefixed_model(t.name@, t.entries@[k - 1]@));
        let pm = a[k];
        assert forall|w: int| 0 <= w < pm.segments.len() implies safe_seg(
            #[trigger] pm.segments[w],
        ) by {
            if w > 0 {
                assert(pm.segments[w] == t.entries@[k - 1]@.segments[w - 1]);
            }
        }
        assert(safe_path(pm.segments));
        lemma_creates_suffix(t, k + 1);
        assert(mapped[k - 1] == create_of(a[k]));
        assert(import_creates(a, k) =~= mapped.subrange(k - 1, t.entries@.len() as int));
    }
}

/// The round trip: importing the archive that an export wrote for a
/// template first removes exactly that template's name and then
/// recreates its root directory and every one of its entries, in
/// order, with their exact paths and bytes.  Into an empty store this
/// reproduces the template; over an existing template of the same
/// name, the store ends up holding exactly the archive's content.
pub proof fn lemma_export_import_roundtrip(t: TemplateTree)
    requires
        safe_seg(t.name@),
        forall|j: int|
            0 <= j < t.entries@.len() ==> safe_path((#[trigger] t.entries@[j])@.segments),
    ensures
        replaced_names(export_tree_spec(t)) == seq![t.name@],
        import_creates(export_tree_spec(t), 0) == seq![
            ImportActionModel::EnsureDir { segments: seq![t.name@] },
        ] + t.entries@.map_values(|e: ArchiveEntry| create_of(prefixed_model(t.name@, e@))),
{
    let a = export_tree_spec(t);
    let root = root_entry_model(t.name@);
    assert(a[0] == root);
    assert(root.segments.len() == 1);
    assert forall|w: int| 0 <= w < root.segments.len() implies safe_seg(
        #[trigger] root.segments[w],
    ) by {
        assert(root.segments[w] == t.name@);
    }
    assert(safe_path(root.segments));
    if Seq::<Seq<char>>::empty().contains(root.segments[0]) {
        let w = choose|w: int|
            0 <= w < 0 && Seq::<Seq<char>>::empty()[w] == root.segments[0];
        assert(false);
    }
    assert forall|k: int| 1 <= k < a.len() implies (#[trigger] a[k]).segments.len() != 1 by {
        assert(a[k] == prefixed_model(t.name@, t.entries@[k - 1]@));
        assert(t.entries@[k - 1]@.segments.len() >= 1);
    }
    lemma_removals_skip(a, 1, seq![t.name@]);
    assert(removal_names(a, 0, seq![]) =~= seq![t.name@]);
    assert(create_of(root) == ImportActionModel::EnsureDir { segments: seq![t.name@] });
    lemma_creates_suffix(t, 1);
    let mapped = t.entries@.map_values(|e: ArchiveEntry| create_of(prefixed_model(t.name@, e@)));
    assert(mapped.subrange(0, t.entries@.len() as int) =~= mapped);
    assert(import_creates(a, 0) =~= seq![create_of(root)] + mapped);
}

/// Whether an import step is a template removal.
pub open spec fn is_removal(x: ImportActionModel) -> bool {
    x is Remove
}

proof fn lemma_creates_never_remove(a: Seq<AEntryModel>, i: int)
    requires
        0 <= i <= a.len(),
    ensures
        forall|w: int|
            0 <= w < import_creates(a, i).len() ==> !is_removal(
                #[trigger] import_creates(a, i)[w],
            ),
    decreases a.len() - i,
{
    if i < a.len() {
        lemma_creates_never_remove(a, i + 1);
        let c = import_creates(a, i);
        let rest = import_creates(a, i + 1);
        assert forall|w: int| 0 <= w < c.len() implies !is_removal(#[trigger] c[w]) by {
            if safe_path(a[i].segments) {
                if w == 0 {
                    assert(c[w] == create_of(a[i]));
                } else {
                    assert(c[w] == rest[w - 1]);
                }
            } else {
                assert(c[w] == rest[w]);
            }
        }
    }
}

/// Every removal stands before every write.
pub open spec fn removals_first(plan: Seq<ImportActionModel>) -> bool {
    forall|i: int, j: int|
        0 <= i < j < plan.len() && is_removal(#[trigger] plan[j]) ==> is_removal(
            #[trigger] plan[i],
        )
}

/// In an import plan every removal stands before every write: a
/// replaced template is gone before any of its new content lands,
/// whatever order the archive's entries come in.
pub proof fn lemma_removal_order(a: Seq<AEntryModel>)
    ensures
        removals_first(import_plan_spec(a)),
{
    let plan = import_plan_spec(a);
    let removes = removal_names(a, 0, seq![]).map_values(
        |n: Seq<char>| ImportActionModel::Remove { name: n },
    );
    let creates = import_creates(a, 0);
    lemma_creates_never_remove(a, 0);
    assert forall|i: int, j: int| 0 <= i < j < plan.len() && is_removal(#[trigger] plan[j]) implies is_removal(#[trigger] plan[i]) by {
        if j >= removes.len() {
            assert(plan[j] == creates[j - removes.len()]);
        }
        assert(j < removes.len());
        assert(plan[i] == removes[i]);
    }
}

/// `m` is the top-level marker of template `t`: a safe entry whose
/// whole path is the one segment `t`.
pub open spec fn top_marker(m: AEntryModel, t: Seq<char>) -> bool {
    m.segments.len() == 1 && safe_path(m.segments) && m.segments[0] == t
}

/// Some entry at or after index `i` is the top-level marker of `t`.
pub open spec fn has_top_marker(a: Seq<AEntryModel>, i: int, t: Seq<char>) -> bool {
    exists|k: int| i <= k < a.len() && top_marker(#[trigger] a[k], t)
}

proof fn lemma_removals_membership(a: Seq<AEntryModel>, i: int, seen: Seq<Seq<char>>, t: Seq<char>)
    requires
        0 <= i <= a.len(),
    ensures
        removal_names(a, i, seen).contains(t) <==> (!seen.contains(t) && has_top_marker(a, i, t)),
    decreases a.len() - i,
{
    let d = removal_names(a, i, seen);
    if i >= a.len() {
        if d.contains(t) {
            let w = choose|w: int| 0 <= w < d.len() && d[w] == t;
            assert(false);
        }
    } else if a[i].segments.len() == 1 && safe_path(a[i].segments) && !seen.contains(
        a[i].segments[0],
    ) {
        let name = a[i].segments[0];
        let seen2 = seen.push(name);
        lemma_removals_membership(a, i + 1, seen2, t);
        let rest = removal_names(a, i + 1, seen2);
        if t == name {
            assert(d[0] == t);
            assert(d.contains(t));
            assert(top_marker(a[i], t));
        } else {
            if d.contains(t) {
                let w = choose|w: int| 0 <= w < d.len() && d[w] == t;
                assert(rest[w - 1] == t);
                assert(rest.contains(t));
                if seen.contains(t) {
                    let v = choose|v: int| 0 <= v < seen.len() && seen[v] == t;
                    assert(seen2[v] == t);
                    assert(seen2.contains(t));
                }
                let k = choose|k: int| i + 1 <= k < a.len() && top_marker(#[trigger] a[k], t);
                assert(top_marker(a[k], t));
                assert(has_top_marker(a, i, t));
            }
            if !seen.contains(t) && has_top_marker(a, i, t) {
                let k = choose|k: int| i <= k < a.len() && top_marker(#[trigger] a[k], t);
                assert(k > i);
                if seen2.contains(t) {
                    let v = choose|v: int| 0 <= v < seen2.len() && seen2[v] == t;
                    if v < seen.len() {
                        assert(seen[v] == t);
                        assert(seen.contains(t));
                    } else {
                        assert(t == name);
                    }
                }
                assert(rest.contains(t));
                let w = choose|w: int| 0 <= w < rest.len() && rest[w] == t;
                assert(d[w + 1] == t);
                assert(d.contains(t));
            }
        }
    } else {
        lemma_removals_membership(a, i + 1, seen, t);
        if d.contains(t) {
            let k = choose|k: int| i + 1 <= k < a.len() && top_marker(#[trigger] a[k], t);
            assert(top_marker(a[k], t));
            assert(has_top_marker(a, i, t));
        }
        if !seen.contains(t) && has_top_marker(a, i, t) {
            let k = choose|k: int| i <= k < a.len() && top_marker(#[trigger] a[k], t);
            if k == i {
                if seen.contains(a[i].segments[0]) {
                    assert(seen.contains(t));
                }
                assert(false);
            }
        }
    }
}

/// The replace law of the import: a template is removed exactly when
/// the archive holds a safe top-level entry of its name — the store
/// ends up holding the archive's version of every such template and
/// nothing of the old one.
pub proof fn lemma_import_replaces_named(a: Seq<AEntryModel>, t: Seq<char>)
    ensures
        replaced_names(a).contains(t) <==> has_top_marker(a, 0, t),
{
    let empty_seen: Seq<Seq<char>> = seq![];
    lemma_removals_membership(a, 0, empty_seen, t);
    if empty_seen.contains(t) {
        let w = choose|w: int| 0 <= w < 0 && empty_seen[w] == t;
        assert(false);
    }
}

} // verus!
