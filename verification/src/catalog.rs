//! The migration catalog: migration definitions loaded from the entries of
//! a `migrations/` directory, with SQL normalization and label extraction.
//!
//! Scanning is sequential: ids start at 1 and stop at the first absent
//! `v<id>.sql` entry, so a gap silently truncates the catalog there.

use vstd::prelude::*;

use crate::text::{
    copy_bytes, digits_end, eq_bytes, extend_bytes, find2_at, find_at, is_ws, join_bytes,
    lemma_find_at, rfind2, spec_dec, spec_digits_end, spec_find2_at, spec_find_at, spec_join,
    spec_rfind2, spec_split, split_bytes, starts_with, subvec, u64_to_dec,
};

verus! {

/// One file of the migrations directory: its name and its raw contents.
#[derive(Debug, PartialEq, Eq)]
pub struct DirEntry {
    pub name: Vec<u8>,
    pub contents: Vec<u8>,
}

/// Mathematical image of a directory entry.
pub struct EntryView {
    pub name: Seq<u8>,
    pub contents: Seq<u8>,
}

impl View for DirEntry {
    type V = EntryView;

    open spec fn view(&self) -> EntryView {
        EntryView { name: self.name@, contents: self.contents@ }
    }
}

impl DeepView for DirEntry {
    type V = EntryView;

    open spec fn deep_view(&self) -> EntryView {
        self.view()
    }
}

/// One versioned change unit.
#[derive(Debug, PartialEq, Eq)]
pub struct Migration {
    pub id: u32,
    pub label: Option<Vec<u8>>,
    pub upgrade_text: Vec<u8>,
    pub downgrade_text: Option<Vec<u8>>,
}

/// Mathematical image of a migration.
pub struct MigrationView {
    pub id: u32,
    pub label: Option<Seq<u8>>,
    pub upgrade_text: Seq<u8>,
    pub downgrade_text: Option<Seq<u8>>,
}

impl View for Migration {
    type V = MigrationView;

    open spec fn view(&self) -> MigrationView {
        MigrationView {
            id: self.id,
            label: match self.label {
                Some(l) => Some(l@),
                None => None,
            },
            upgrade_text: self.upgrade_text@,
            downgrade_text: match self.downgrade_text {
                Some(d) => Some(d@),
                None => None,
            },
        }
    }
}

impl DeepView for Migration {
    type V = MigrationView;

    open spec fn deep_view(&self) -> MigrationView {
        self.view()
    }
}

/// A line that opens with `--` is a comment line.
pub open spec fn is_comment_line(line: Seq<u8>) -> bool {
    line.len() >= 2 && line[0] == 45 && line[1] == 45
}

/// A block comment spans from the first `/*` to the end of the last `*/`;
/// both are cut out.  A line without that shape is left alone.
pub open spec fn spec_strip_block(line: Seq<u8>) -> Seq<u8> {
    let p = spec_find2_at(line, 47, 42, 0);
    let q = spec_rfind2(line, 42, 47);
    if p < line.len() && q >= p + 2 {
        line.subrange(0, p) + line.subrange(q + 2, line.len() as int)
    } else {
        line
    }
}

/// One line, normalized: comment lines and whitespace-only remainders are
/// blanked, block comments cut out.
pub open spec fn spec_line_norm(line: Seq<u8>) -> Seq<u8> {
    if is_comment_line(line) {
        Seq::empty()
    } else {
        let t = spec_strip_block(line);
        if forall|i: int| 0 <= i < t.len() ==> is_ws(#[trigger] t[i]) {
            Seq::empty()
        } else {
            t
        }
    }
}

/// A whole script, normalized line by line; line structure is kept.
pub open spec fn spec_normalize(s: Seq<u8>) -> Seq<u8> {
    spec_join(spec_split(s, 10).map_values(|l: Seq<u8>| spec_line_norm(l)), 10)
}

/// Cut a block comment out of one line.
fn strip_block(line: &Vec<u8>) -> (r: Vec<u8>)
    ensures
        r@ == spec_strip_block(line@),
{
    proof {
        crate::text::lemma_find2_at(line@, 47, 42, 0);
        crate::text::lemma_rfind2(line@, 42, 47);
    }
    let p = find2_at(line, 47, 42, 0);
    let q_opt = rfind2(line, 42, 47);
    match q_opt {
        Some(q) => {
            if p < line.len() && q >= p && q - p >= 2 {
                let mut r = subvec(line, 0, p);
                let tail = subvec(line, q + 2, line.len());
                extend_bytes(&mut r, &tail);
                r
            } else {
                copy_bytes(line)
            }
        },
        None => copy_bytes(line),
    }
}

/// Normalize one line.
fn line_norm(line: &Vec<u8>) -> (r: Vec<u8>)
    ensures
        r@ == spec_line_norm(line@),
{
    if line.len() >= 2 && line[0] == 45 && line[1] == 45 {
        return Vec::new();
    }
    let t = strip_block(line);
    let mut i: usize = 0;
    while i < t.len()
        invariant
            i <= t@.len(),
            t@ == spec_strip_block(line@),
            !is_comment_line(line@),
            forall|j: int| 0 <= j < i ==> is_ws(#[trigger] t@[j]),
        decreases t@.len() - i,
    {
        let b = t[i];
        if !(b == 9 || b == 10 || b == 11 || b == 12 || b == 13 || b == 32) {
            proof {
                let st = spec_strip_block(line@);
                assert(st == t@);
                assert(!is_ws(st[i as int]));
                assert(!(forall|j: int| 0 <= j < st.len() ==> is_ws(#[trigger] st[j])));
            }
            return t;
        }
        i = i + 1;
    }
    Vec::new()
}

/// Normalize a whole script: strip comments, blank whitespace-only lines.
pub fn normalize_sql(v: &Vec<u8>) -> (r: Vec<u8>)
    ensures
        r@ == spec_normalize(v@),
{
    let lines = split_bytes(v, 10);
    let mut out: Vec<Vec<u8>> = Vec::new();
    let mut i: usize = 0;
    while i < lines.len()
        invariant
            i <= lines@.len(),
            out.deep_view() =~~= lines.deep_view().subrange(0, i as int).map_values(
                |l: Seq<u8>| spec_line_norm(l),
            ),
        decreases lines@.len() - i,
    {
        let ghost prev = out.deep_view();
        assert(lines.deep_view()[i as int] == lines@[i as int]@);
        let n = line_norm(&lines[i]);
        out.push(n);
        assert(out.deep_view() =~~= prev + seq![n@]);
        assert(out.deep_view() =~~= lines.deep_view().subrange(0, i + 1).map_values(
            |l: Seq<u8>| spec_line_norm(l),
        ));
        i = i + 1;
    }
    assert(lines.deep_view().subrange(0, lines@.len() as int) =~~= lines.deep_view());
    join_bytes(&out, 10)
}

/// The header that may carry a migration's label: the bytes of
/// `/* rmmm migration v`.
pub open spec fn spec_label_prefix() -> Seq<u8> {
    seq![47u8, 42, 32, 114, 109, 109, 109, 32, 109, 105, 103, 114, 97, 116, 105, 111, 110, 32, 118]
}

/// The label in a script's first line, if the line has the shape
/// `/* rmmm migration v<digits> - <label> */`.
pub open spec fn spec_label_of(raw: Seq<u8>) -> Option<Seq<u8>> {
    let line = raw.subrange(0, spec_find_at(raw, 10, 0));
    let pre = spec_label_prefix();
    if line.len() >= pre.len() && line.subrange(0, pre.len() as int) == pre {
        let d = spec_digits_end(line, pre.len() as int);
        if d > pre.len() && d + 3 <= line.len() - 3 && line[d] == 32 && line[d + 1] == 45 && line[d
            + 2] == 32 && line[line.len() - 3] == 32 && line[line.len() - 2] == 42
            && line[line.len() - 1] == 47 {
            Some(line.subrange(d + 3, line.len() - 3))
        } else {
            None
        }
    } else {
        None
    }
}

/// Build the header prefix at run time.
fn label_prefix() -> (r: Vec<u8>)
    ensures
        r@ == spec_label_prefix(),
{
    let mut r: Vec<u8> = Vec::new();
    r.push(47);
    r.push(42);
    r.push(32);
    r.push(114);
    r.push(109);
    r.push(109);
    r.push(109);
    r.push(32);
    r.push(109);
    r.push(105);
    r.push(103);
    r.push(114);
    r.push(97);
    r.push(116);
    r.push(105);
    r.push(111);
    r.push(110);
    r.push(32);
    r.push(118);
    assert(r@ =~= spec_label_prefix());
    r
}

/// Extract the label from a script's first line, if present.
pub fn label_of(raw: &Vec<u8>) -> (r: Option<Vec<u8>>)
    ensures
        match r {
            Some(l) => spec_label_of(raw@) == Some(l@),
            None => spec_label_of(raw@).is_none(),
        },
{
    proof {
        lemma_find_at(raw@, 10, 0);
    }
    let nl = find_at(raw, 10, 0);
    let line = subvec(raw, 0, nl);
    let pre = label_prefix();
    if !starts_with(&line, &pre) {
        return None;
    }
    proof {
        crate::text::lemma_digits_end(line@, pre.len() as int);
    }
    let d = digits_end(&line, pre.len());
    if line.len() >= 6 && d > pre.len() && d <= line.len() - 6 && line[d] == 32 && line[d + 1]
        == 45 && line[d + 2] == 32 && line[line.len() - 3] == 32 && line[line.len() - 2] == 42
        && line[line.len() - 1] == 47 {
        Some(subvec(&line, d + 3, line.len() - 3))
    } else {
        None
    }
}

/// The file name `v<id>.sql`.
pub open spec fn spec_vname(id: nat) -> Seq<u8> {
    seq![118u8] + spec_dec(id) + seq![46u8, 115, 113, 108]
}

/// The file name `v<id>_downgrade.sql`.
pub open spec fn spec_vname_down(id: nat) -> Seq<u8> {
    seq![118u8] + spec_dec(id) + seq![
        95u8,
        100,
        111,
        119,
        110,
        103,
        114,
        97,
        100,
        101,
        46,
        115,
        113,
        108,
    ]
}

/// Distinct ids give distinct `v<id>.sql` names.
pub proof fn lemma_vname_injective(a: nat, b: nat)
    ensures
        spec_vname(a) == spec_vname(b) ==> a == b,
{
    if spec_vname(a) == spec_vname(b) {
        crate::text::lemma_val_dec(a);
        crate::text::lemma_val_dec(b);
        let la = spec_dec(a).len() as int;
        let lb = spec_dec(b).len() as int;
        assert(spec_vname(a).len() == la + 5);
        assert(spec_vname(b).len() == lb + 5);
        assert(spec_dec(a) =~= spec_vname(a).subrange(1, 1 + la));
        assert(spec_dec(b) =~= spec_vname(b).subrange(1, 1 + lb));
        crate::text::lemma_dec_injective(a, b);
    }
}

/// Build `v<id>.sql` at run time.
pub fn vname(id: u32) -> (r: Vec<u8>)
    ensures
        r@ == spec_vname(id as nat),
{
    let mut r: Vec<u8> = Vec::new();
    r.push(118);
    let digits = u64_to_dec(id as u64);
    extend_bytes(&mut r, &digits);
    r.push(46);
    r.push(115);
    r.push(113);
    r.push(108);
    assert(r@ =~= spec_vname(id as nat));
    r
}

/// Build `v<id>_downgrade.sql` at run time.
pub fn vname_down(id: u32) -> (r: Vec<u8>)
    ensures
        r@ == spec_vname_down(id as nat),
{
    let mut r: Vec<u8> = Vec::new();
    r.push(118);
    let digits = u64_to_dec(id as u64);
    extend_bytes(&mut r, &digits);
    r.push(95);
    r.push(100);
    r.push(111);
    r.push(119);
    r.push(110);
    r.push(103);
    r.push(114);
    r.push(97);
    r.push(100);
    r.push(101);
    r.push(46);
    r.push(115);
    r.push(113);
    r.push(108);
    assert(r@ =~= spec_vname_down(id as nat));
    r
}

/// Index of the first entry named `name` at or after `from`, or the length.
pub open spec fn spec_find_entry_at(es: Seq<EntryView>, name: Seq<u8>, from: int) -> int
    decreases es.len() - from,
{
    if from < 0 || from >= es.len() {
        es.len() as int
    } else if es[from].name == name {
        from
    } else {
        spec_find_entry_at(es, name, from + 1)
    }
}

/// Is there an entry named `name`?
pub open spec fn spec_has_entry(es: Seq<EntryView>, name: Seq<u8>) -> bool {
    spec_find_entry_at(es, name, 0) < es.len()
}

/// Contents of the first entry named `name`.
pub open spec fn spec_entry_contents(es: Seq<EntryView>, name: Seq<u8>) -> Seq<u8> {
    es[spec_find_entry_at(es, name, 0)].contents
}

/// What `spec_find_entry_at` returns.
pub proof fn lemma_find_entry_at(es: Seq<EntryView>, name: Seq<u8>, from: int)
    requires
        0 <= from <= es.len(),
    ensures
        from <= spec_find_entry_at(es, name, from) <= es.len(),
        spec_find_entry_at(es, name, from) < es.len() ==> es[spec_find_entry_at(
            es,
            name,
            from,
        )].name == name,
        forall|j: int|
            from <= j < spec_find_entry_at(es, name, from) ==> #[trigger] es[j].name != name,
    decreases es.len() - from,
{
    if from < es.len() && es[from].name != name {
        lemma_find_entry_at(es, name, from + 1);
    }
}

/// The migration that entries `es` define for `id`: normalized upgrade
/// text, the header label if present, and the optional downgrade text.
pub open spec fn spec_migration_of(es: Seq<EntryView>, id: u32) -> MigrationView {
    MigrationView {
        id: id,
        label: spec_label_of(spec_entry_contents(es, spec_vname(id as nat))),
        upgrade_text: spec_normalize(spec_entry_contents(es, spec_vname(id as nat))),
        downgrade_text: if spec_has_entry(es, spec_vname_down(id as nat)) {
            Some(spec_normalize(spec_entry_contents(es, spec_vname_down(id as nat))))
        } else {
            None
        },
    }
}

/// First entry named `name`, as its index, or the length if absent.
pub fn find_entry(entries: &Vec<DirEntry>, name: &Vec<u8>) -> (r: usize)
    ensures
        r == spec_find_entry_at(entries.deep_view(), name@, 0),
{
    let ghost es = entries.deep_view();
    let mut i: usize = 0;
    while i < entries.len()
        invariant
            i <= es.len() == entries@.len(),
            es =~~= entries.deep_view(),
            spec_find_entry_at(es, name@, 0) == spec_find_entry_at(es, name@, i as int),
        decreases entries@.len() - i,
    {
        assert(es[i as int] == entries@[i as int]@);
        if eq_bytes(&entries[i].name, name) {
            return i;
        }
        i = i + 1;
    }
    entries.len()
}

/// The loaded catalog: migrations with ids `1..=len`, in order.
pub struct MigrationState {
    pub migrations: Vec<Migration>,
}

impl View for MigrationState {
    type V = Seq<MigrationView>;

    open spec fn view(&self) -> Seq<MigrationView> {
        self.migrations.deep_view()
    }
}

/// Copy a migration.
fn copy_migration(m: &Migration) -> (r: Migration)
    ensures
        r@ == m@,
{
    Migration {
        id: m.id,
        label: match &m.label {
            Some(l) => Some(copy_bytes(l)),
            None => None,
        },
        upgrade_text: copy_bytes(&m.upgrade_text),
        downgrade_text: match &m.downgrade_text {
            Some(d) => Some(copy_bytes(d)),
            None => None,
        },
    }
}

impl MigrationState {
    /// Ids are strictly sequential from 1, without gaps.
    pub open spec fn wf(&self) -> bool {
        forall|i: int| 0 <= i < self@.len() ==> #[trigger] self@[i].id == i + 1
    }

    /// Load the catalog from the entries of the migrations directory:
    /// take `v1.sql`, `v2.sql`, ... until the first id with no entry.
    /// A directory that does not exist is given as no entries at all.
    pub fn load(entries: &Vec<DirEntry>) -> (r: MigrationState)
        requires
            entries@.len() < 0xffff_ffff,
        ensures
            r.wf(),
            r@.len() <= entries@.len(),
            forall|i: int|
                0 <= i < r@.len() ==> #[trigger] r@[i] == spec_migration_of(
                    entries.deep_view(),
                    (i + 1) as u32,
                ),
            !spec_has_entry(entries.deep_view(), spec_vname((r@.len() + 1) as nat)),
    {
        let ghost es = entries.deep_view();
        let mut migs: Vec<Migration> = Vec::new();
        let ghost mut idxs: Seq<int> = Seq::empty();
        loop
            invariant_except_break
                es == entries.deep_view(),
                es.len() == entries@.len() < 0xffff_ffff,
                migs@.len() == idxs.len(),
                migs@.len() <= entries@.len(),
                idxs.no_duplicates(),
                forall|k: int|
                    0 <= k < idxs.len() ==> 0 <= #[trigger] idxs[k] < es.len() && es[idxs[k]].name
                        == spec_vname((k + 1) as nat),
                forall|i: int|
                    0 <= i < migs@.len() ==> #[trigger] migs.deep_view()[i] == spec_migration_of(
                        es,
                        (i + 1) as u32,
                    ),
            ensures
                es == entries.deep_view(),
                migs@.len() <= entries@.len(),
                forall|i: int|
                    0 <= i < migs@.len() ==> #[trigger] migs.deep_view()[i] == spec_migration_of(
                        es,
                        (i + 1) as u32,
                    ),
                !spec_has_entry(es, spec_vname((migs@.len() + 1) as nat)),
            decreases entries@.len() - migs@.len(),
        {
            let id: u32 = (migs.len() + 1) as u32;
            let name = vname(id);
            proof {
                lemma_find_entry_at(es, name@, 0);
            }
            let j = find_entry(entries, &name);
            if j == entries.len() {
                break;
            }
            proof {
                assert forall|k: int| 0 <= k < idxs.len() implies idxs[k] != j as int by {
                    if idxs[k] == j as int {
                        lemma_vname_injective((k + 1) as nat, id as nat);
                    }
                }
                let idxs2 = idxs.push(j as int);
                assert(idxs2.no_duplicates());
                idxs2.unique_seq_to_set();
                assert(idxs2.to_set().subset_of(vstd::set_lib::set_int_range(0, es.len() as int)));
                vstd::set_lib::lemma_int_range(0, es.len() as int);
                vstd::set_lib::lemma_len_subset(
                    idxs2.to_set(),
                    vstd::set_lib::set_int_range(0, es.len() as int),
                );
                assert(idxs2.len() <= es.len());
                idxs = idxs2;
            }
            let label = label_of(&entries[j].contents);
            let upgrade_text = normalize_sql(&entries[j].contents);
            let dname = vname_down(id);
            proof {
                lemma_find_entry_at(es, dname@, 0);
            }
            let dj = find_entry(entries, &dname);
            let downgrade_text = if dj == entries.len() {
                None
            } else {
                Some(normalize_sql(&entries[dj].contents))
            };
            let ghost prev = migs.deep_view();
            let m = Migration { id, label, upgrade_text, downgrade_text };
            proof {
                assert(es[j as int] == entries@[j as int]@);
                assert(es[j as int].contents == entries@[j as int].contents@);
                assert(spec_entry_contents(es, spec_vname(id as nat)) == entries@[
                    j as int
                ].contents@);
                if dj < entries@.len() {
                    assert(es[dj as int].contents == entries@[dj as int].contents@);
                }
                assert(m@ == spec_migration_of(es, id));
            }
            migs.push(m);
            assert(migs.deep_view() =~~= prev + seq![m@]);
        }
        let r = MigrationState { migrations: migs };
        proof {
            assert(r@ == migs.deep_view());
            assert forall|i: int| 0 <= i < r@.len() implies #[trigger] r@[i].id == i + 1 by {
                assert(r@[i] == spec_migration_of(es, (i + 1) as u32));
            }
        }
        r
    }

    /// The greatest loaded id, or 0 when nothing is loaded.
    pub fn highest_id(&self) -> (r: u32)
        requires
            self.wf(),
        ensures
            r == self@.len(),
    {
        proof {
            if self@.len() > 0 {
                assert(self@[self@.len() - 1].id == self@.len());
            }
        }
        self.migrations.len() as u32
    }

    /// The set of loaded ids: exactly `1..=highest_id`.
    pub fn all_ids(&self) -> (r: std::collections::BTreeSet<u32>)
        requires
            self.wf(),
        ensures
            r@ == Set::new(|x: u32| 1 <= x <= self@.len()),
    {
        broadcast use vstd::std_specs::btree::group_btree_axioms;
        broadcast use vstd::laws_cmp::group_laws_cmp;

        let n = self.highest_id();
        let mut s = std::collections::BTreeSet::<u32>::new();
        assert(s@ =~= Set::new(|x: u32| 1 <= x <= 0));
        let mut i: u32 = 0;
        while i < n
            invariant
                i <= n == self@.len(),
                s@ == Set::new(|x: u32| 1 <= x <= i),
            decreases n - i,
        {
            i = i + 1;
            s.insert(i);
            assert(s@ =~= Set::new(|x: u32| 1 <= x <= i));
        }
        s
    }

    /// Lookup map from id to migration, over all loaded ids.
    pub fn migrations_by_id(&self) -> (r: std::collections::BTreeMap<u32, Migration>)
        requires
            self.wf(),
        ensures
            r@.dom() == Set::new(|x: u32| 1 <= x <= self@.len()),
            forall|x: u32|
                1 <= x <= self@.len() ==> #[trigger] r@[x]@ == self@[x - 1],
    {
        broadcast use vstd::std_specs::btree::group_btree_axioms;
        broadcast use vstd::laws_cmp::group_laws_cmp;

        let mut r = std::collections::BTreeMap::<u32, Migration>::new();
        assert(r@.dom() =~= Set::new(|x: u32| 1 <= x <= 0));
        let mut i: usize = 0;
        while i < self.migrations.len()
            invariant
                i <= self@.len() == self.migrations@.len(),
                self.wf(),
                r@.dom() == Set::new(|x: u32| 1 <= x <= i),
                forall|x: u32| 1 <= x <= i ==> #[trigger] r@[x]@ == self@[x - 1],
            decreases self.migrations@.len() - i,
        {
            let m = copy_migration(&self.migrations[i]);
            proof {
                assert(self@[i as int] == self.migrations@[i as int]@);
                assert(self@[i as int].id == i + 1);
            }
            let id = m.id;
            assert(id == i + 1);
            r.insert(id, m);
            assert(r@.dom() =~= Set::new(|x: u32| 1 <= x <= i + 1));
            i = i + 1;
        }
        r
    }
}

} // verus!
