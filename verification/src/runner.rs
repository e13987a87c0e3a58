//! The executor's pure side: splitting scripts into statements, turning a
//! plan into the ordered list of database actions one transaction must run,
//! reading the bookkeeping rows, and assembling a schema snapshot.
//!
//! Statements are split on a literal `;` followed by a newline.  This is a
//! deliberately naive splitter, not a SQL tokenizer: that exact two-byte
//! sequence inside a string or comment body would be mis-split.

use vstd::multiset::Multiset;
use vstd::prelude::*;

use crate::plan::{ExecutedMigration, MigrationPlan, StepView};
use crate::text::{
    copy_bytes, spec_clean, spec_split2, clean_fragment, split2_bytes,
};

verus! {

/// Cleaned fragments, empties dropped.
pub open spec fn spec_fragments_clean(parts: Seq<Seq<u8>>) -> Seq<Seq<u8>>
    decreases parts.len(),
{
    if parts.len() == 0 {
        Seq::empty()
    } else {
        spec_fragments_clean(parts.drop_last()) + if spec_clean(parts.last()).len() == 0 {
            Seq::empty()
        } else {
            seq![spec_clean(parts.last())]
        }
    }
}

/// The statements of one script: pieces between `;`-newline separators,
/// newlines flattened to spaces, ends trimmed, empty pieces dropped.
pub open spec fn spec_statements(sql: Seq<u8>) -> Seq<Seq<u8>> {
    spec_fragments_clean(spec_split2(sql, 59, 10))
}

/// Split a script into the statements to run, in order.
pub fn split_statements(sql: &Vec<u8>) -> (r: Vec<Vec<u8>>)
    ensures
        r.deep_view() == spec_statements(sql@),
{
    let parts = split2_bytes(sql, 59, 10);
    let ghost pv = parts.deep_view();
    let mut r: Vec<Vec<u8>> = Vec::new();
    let mut i: usize = 0;
    assert(pv.subrange(0, 0) =~~= Seq::<Seq<u8>>::empty());
    while i < parts.len()
        invariant
            i <= parts@.len(),
            pv == parts.deep_view(),
            pv.len() == parts@.len(),
            r.deep_view() == spec_fragments_clean(pv.subrange(0, i as int)),
        decreases parts@.len() - i,
    {
        assert(pv[i as int] == parts@[i as int]@);
        let c = clean_fragment(&parts[i]);
        let ghost prev = r.deep_view();
        if c.len() > 0 {
            r.push(c);
            assert(r.deep_view() =~~= prev + seq![c@]);
        }
        proof {
            assert(pv.subrange(0, i + 1).drop_last() =~~= pv.subrange(0, i as int));
            assert(pv.subrange(0, i + 1).last() == pv[i as int]);
            assert(r.deep_view() =~~= spec_fragments_clean(pv.subrange(0, i + 1)));
        }
        i = i + 1;
    }
    assert(pv.subrange(0, pv.len() as int) =~~= pv);
    r
}

/// One database action of an execution transaction.
#[derive(Debug, PartialEq, Eq)]
pub enum DbAction {
    /// Create the bookkeeping table.
    CreateBookkeeping,
    /// Run one SQL statement.
    RunSql(Vec<u8>),
    /// Insert the bookkeeping row of an upgraded migration.
    RecordExecution { id: u32, label: Option<Vec<u8>> },
    /// Delete the bookkeeping row of a downgraded migration.
    RemoveRecord { id: u32 },
}

/// Mathematical image of a database action.
#[verifier::ext_equal]
pub enum ActionView {
    CreateBookkeeping,
    RunSql(Seq<u8>),
    RecordExecution { id: u32, label: Option<Seq<u8>> },
    RemoveRecord { id: u32 },
}

impl View for DbAction {
    type V = ActionView;

    open spec fn view(&self) -> ActionView {
        match self {
            DbAction::CreateBookkeeping => ActionView::CreateBookkeeping,
            DbAction::RunSql(s) => ActionView::RunSql(s@),
            DbAction::RecordExecution { id, label } => ActionView::RecordExecution {
                id: *id,
                label: match label {
                    Some(l) => Some(l@),
                    None => None,
                },
            },
            DbAction::RemoveRecord { id } => ActionView::RemoveRecord { id: *id },
        }
    }
}

impl DeepView for DbAction {
    type V = ActionView;

    open spec fn deep_view(&self) -> ActionView {
        self.view()
    }
}

/// The actions one step contributes: its statements in order, then its
/// bookkeeping row, inserted on upgrade and deleted on downgrade.
pub open spec fn spec_step_actions(s: StepView, is_upgrade: bool) -> Seq<ActionView> {
    spec_statements(s.sql).map_values(|t: Seq<u8>| ActionView::RunSql(t)) + seq![
        if is_upgrade {
            ActionView::RecordExecution { id: s.id, label: s.label }
        } else {
            ActionView::RemoveRecord { id: s.id }
        },
    ]
}

/// The actions of the steps in order.
pub open spec fn spec_steps_actions(steps: Seq<StepView>, is_upgrade: bool) -> Seq<ActionView>
    decreases steps.len(),
{
    if steps.len() == 0 {
        Seq::empty()
    } else {
        spec_steps_actions(steps.drop_last(), is_upgrade) + spec_step_actions(
            steps.last(),
            is_upgrade,
        )
    }
}

/// Everything one execution transaction runs, in order: the bookkeeping
/// table is created first if missing, then each step's statements followed
/// by its bookkeeping row.  The whole list commits or rolls back as one.
pub open spec fn spec_execution_script(
    steps: Seq<StepView>,
    is_upgrade: bool,
    table_exists: bool,
) -> Seq<ActionView> {
    (if table_exists {
        Seq::empty()
    } else {
        seq![ActionView::CreateBookkeeping]
    }) + spec_steps_actions(steps, is_upgrade)
}

/// Lay out the database actions that executing `plan` requires, in order.
pub fn execution_script(plan: &MigrationPlan, table_exists: bool) -> (r: Vec<DbAction>)
    ensures
        r.deep_view() == spec_execution_script(plan@.steps, plan@.is_upgrade, table_exists),
{
    let steps = plan.steps();
    let up = plan.is_upgrade();
    let ghost sv = plan@.steps;
    let mut acts: Vec<DbAction> = Vec::new();
    if !table_exists {
        acts.push(DbAction::CreateBookkeeping);
        assert(acts.deep_view() =~~= seq![ActionView::CreateBookkeeping]);
    }
    let ghost head = acts.deep_view();
    let mut i: usize = 0;
    assert(acts.deep_view() =~~= head + spec_steps_actions(sv.subrange(0, 0), up));
    while i < steps.len()
        invariant
            i <= steps@.len() == sv.len(),
            up == plan@.is_upgrade,
            sv == plan@.steps,
            forall|k: int| 0 <= k < steps@.len() ==> #[trigger] steps@[k]@ == sv[k],
            acts.deep_view() == head + spec_steps_actions(sv.subrange(0, i as int), up),
        decreases steps@.len() - i,
    {
        let frags = split_statements(&steps[i].sql);
        let ghost fv = frags.deep_view();
        let ghost before = acts.deep_view();
        assert(steps@[i as int]@ == sv[i as int]);
        assert(fv == spec_statements(sv[i as int].sql));
        let mut j: usize = 0;
        assert(fv.subrange(0, 0).map_values(|t: Seq<u8>| ActionView::RunSql(t))
            =~~= Seq::<ActionView>::empty());
        while j < frags.len()
            invariant
                j <= frags@.len() == fv.len(),
                fv == frags.deep_view(),
                acts.deep_view() == before + fv.subrange(0, j as int).map_values(
                    |t: Seq<u8>| ActionView::RunSql(t),
                ),
            decreases frags@.len() - j,
        {
            let ghost prev = acts.deep_view();
            assert(fv[j as int] == frags@[j as int]@);
            let sql = copy_bytes(&frags[j]);
            acts.push(DbAction::RunSql(sql));
            proof {
                assert(acts.deep_view() =~~= prev + seq![ActionView::RunSql(fv[j as int])]);
                assert(acts.deep_view() =~~= before + fv.subrange(0, j + 1).map_values(
                    |t: Seq<u8>| ActionView::RunSql(t),
                ));
            }
            j = j + 1;
        }
        let ghost mid = acts.deep_view();
        let book = if up {
            DbAction::RecordExecution { id: steps[i].id, label: crate::plan::copy_label(&steps[i].label) }
        } else {
            DbAction::RemoveRecord { id: steps[i].id }
        };
        proof {
            assert(book@ == (if up {
                ActionView::RecordExecution { id: sv[i as int].id, label: sv[i as int].label }
            } else {
                ActionView::RemoveRecord { id: sv[i as int].id }
            }));
        }
        acts.push(book);
        proof {
            assert(acts.deep_view() =~~= mid + seq![book@]);
            assert(fv.subrange(0, fv.len() as int) =~~= fv);
            assert(mid =~~= before + spec_statements(sv[i as int].sql).map_values(
                |t: Seq<u8>| ActionView::RunSql(t),
            ));
            assert(acts.deep_view() =~~= before + spec_step_actions(sv[i as int], up));
            assert(sv.subrange(0, i + 1).drop_last() =~~= sv.subrange(0, i as int));
            assert(sv.subrange(0, i + 1).last() == sv[i as int]);
            assert(acts.deep_view() =~~= head + spec_steps_actions(sv.subrange(0, i + 1), up));
        }
        i = i + 1;
    }
    assert(sv.subrange(0, sv.len() as int) =~~= sv);
    acts
}

/// The executed migrations, read from the bookkeeping table's rows.  On a
/// database lacking the table there are no rows and the list is empty:
/// the first-run bootstrap case, not an error.
pub fn list_run_migrations(table_exists: bool, rows: &Vec<(u32, Option<i64>)>) -> (r: Vec<
    ExecutedMigration,
>)
    ensures
        !table_exists ==> r@.len() == 0,
        table_exists ==> r@.len() == rows@.len() && forall|i: int|
            0 <= i < rows@.len() ==> (#[trigger] r@[i]).id == rows@[i].0 && r@[i].executed_at
                == rows@[i].1,
{
    let mut r: Vec<ExecutedMigration> = Vec::new();
    if !table_exists {
        return r;
    }
    let mut i: usize = 0;
    while i < rows.len()
        invariant
            i <= rows@.len(),
            r@.len() == i,
            forall|k: int|
                0 <= k < i ==> (#[trigger] r@[k]).id == rows@[k].0 && r@[k].executed_at
                    == rows@[k].1,
        decreases rows@.len() - i,
    {
        let (id, executed_at) = rows[i];
        r.push(ExecutedMigration { id, executed_at });
        i = i + 1;
    }
    r
}

/// One table of the database: its name and its canonical create statement.
#[derive(Debug, PartialEq, Eq)]
pub struct TableDump {
    pub name: Vec<u8>,
    pub create_sql: Vec<u8>,
}

/// Mathematical image of a table dump.
#[verifier::ext_equal]
pub struct TableDumpView {
    pub name: Seq<u8>,
    pub create_sql: Seq<u8>,
}

impl View for TableDump {
    type V = TableDumpView;

    open spec fn view(&self) -> TableDumpView {
        TableDumpView { name: self.name@, create_sql: self.create_sql@ }
    }
}

impl DeepView for TableDump {
    type V = TableDumpView;

    open spec fn deep_view(&self) -> TableDumpView {
        self.view()
    }
}

/// Tables in ascending name order.
pub open spec fn spec_tables_sorted(ts: Seq<TableDumpView>) -> bool {
    forall|a: int, b: int|
        0 <= a < b < ts.len() ==> crate::text::spec_lex_le(
            (#[trigger] ts[a]).name,
            (#[trigger] ts[b]).name,
        )
}

/// Sort the tables by name, ascending, keeping every entry.
pub fn sort_tables(tables: Vec<TableDump>) -> (r: Vec<TableDump>)
    ensures
        spec_tables_sorted(r.deep_view()),
        r.deep_view().to_multiset() == tables.deep_view().to_multiset(),
{
    broadcast use vstd::seq_lib::group_to_multiset_ensures;

    let ghost orig = tables.deep_view();
    let mut rest = tables;
    let mut r: Vec<TableDump> = Vec::new();
    assert(r.deep_view().to_multiset().add(rest.deep_view().to_multiset()) =~= orig.to_multiset());
    while rest.len() > 0
        invariant
            spec_tables_sorted(r.deep_view()),
            r.deep_view().to_multiset().add(rest.deep_view().to_multiset()) == orig.to_multiset(),
        decreases rest@.len(),
    {
        let ghost old_rest = rest.deep_view();
        let ghost old_r = r.deep_view();
        let t = rest.remove(0);
        proof {
            broadcast use vstd::seq_lib::group_to_multiset_ensures;

            assert(rest.deep_view() =~~= old_rest.remove(0));
            assert(rest.deep_view() == old_rest.remove(0));
            assert(old_rest.remove(0).to_multiset() =~= old_rest.to_multiset().remove(
                old_rest[0],
            ));
            assert(t@ == old_rest[0]);
            assert(old_rest.contains(t@));
            assert(old_rest.to_multiset().count(t@) > 0);
        }
        let ghost rv = r.deep_view();
        let mut j: usize = 0;
        while j < r.len() && crate::text::lex_le(&r[j].name, &t.name)
            invariant
                j <= r@.len(),
                rv == r.deep_view(),
                rv.len() == r@.len(),
                t@.name == t.name@,
                forall|k: int|
                    0 <= k < j ==> crate::text::spec_lex_le((#[trigger] rv[k]).name, t@.name),
            decreases r@.len() - j,
        {
            assert(rv[j as int] == r@[j as int]@);
            j = j + 1;
        }
        proof {
            if j < r@.len() {
                assert(rv[j as int] == r@[j as int]@);
                crate::text::lemma_lex_total(rv[j as int].name, t@.name);
            }
        }
        r.insert(j, t);
        proof {
            broadcast use vstd::seq_lib::group_to_multiset_ensures;

            old_r.insert_ensures(j as int, t@);
            assert(r.deep_view() =~~= old_r.insert(j as int, t@));
            let nv = r.deep_view();
            assert(nv.to_multiset() =~= old_r.to_multiset().insert(t@));
            assert(nv.to_multiset().add(rest.deep_view().to_multiset()) =~= orig.to_multiset());
            assert forall|a: int, b: int|
                0 <= a < b < nv.len() implies crate::text::spec_lex_le(
                (#[trigger] nv[a]).name,
                (#[trigger] nv[b]).name,
            ) by {
                let jj = j as int;
                if b < jj {
                    assert(nv[a] == old_r[a] && nv[b] == old_r[b]);
                } else if a < jj && b == jj {
                    assert(nv[a] == old_r[a] && nv[b] == t@);
                } else if a < jj && b > jj {
                    assert(nv[a] == old_r[a] && nv[b] == old_r[b - 1]);
                    if a < b - 1 {
                    } else {
                        assert(a == b - 1);
                        assert(a >= jj);
                        assert(false);
                    }
                } else if a == jj && b > jj {
                    assert(nv[a] == t@ && nv[b] == old_r[b - 1]);
                    if b - 1 > jj {
                        crate::text::lemma_lex_trans(t@.name, old_r[jj].name, old_r[b - 1].name);
                    }
                } else {
                    assert(a > jj && b > jj);
                    assert(nv[a] == old_r[a - 1] && nv[b] == old_r[b - 1]);
                }
            }
        }
    }
    proof {
        broadcast use vstd::seq_lib::group_to_multiset_ensures;

        assert(rest.deep_view() =~~= Seq::<TableDumpView>::empty());
        assert(Seq::<TableDumpView>::empty().to_multiset() =~= Multiset::<
            TableDumpView,
        >::empty());
        assert(r.deep_view().to_multiset() =~= orig.to_multiset());
    }
    r
}

/// The bookkeeping table's name, `rmmm_migrations`.
pub open spec fn spec_bookkeeping_name() -> Seq<u8> {
    seq![114u8, 109, 109, 109, 95, 109, 105, 103, 114, 97, 116, 105, 111, 110, 115]
}

/// Build the bookkeeping table's name at run time.
pub fn bookkeeping_name() -> (r: Vec<u8>)
    ensures
        r@ == spec_bookkeeping_name(),
{
    let mut r: Vec<u8> = Vec::new();
    r.push(114);
    r.push(109);
    r.push(109);
    r.push(109);
    r.push(95);
    r.push(109);
    r.push(105);
    r.push(103);
    r.push(114);
    r.push(97);
    r.push(116);
    r.push(105);
    r.push(111);
    r.push(110);
    r.push(115);
    assert(r@ =~= spec_bookkeeping_name());
    r
}

/// One row of the bookkeeping table, as a snapshot reproduces it.
#[derive(Debug, PartialEq, Eq)]
pub struct BookRow {
    pub id: u64,
    pub label: Vec<u8>,
}

/// Mathematical image of a bookkeeping row.
#[verifier::ext_equal]
pub struct BookRowView {
    pub id: u64,
    pub label: Seq<u8>,
}

impl View for BookRow {
    type V = BookRowView;

    open spec fn view(&self) -> BookRowView {
        BookRowView { id: self.id, label: self.label@ }
    }
}

impl DeepView for BookRow {
    type V = BookRowView;

    open spec fn deep_view(&self) -> BookRowView {
        self.view()
    }
}

/// `INSERT INTO rmmm_migrations(id, label, executed_at) VALUES(`.
pub open spec fn spec_insert_pre() -> Seq<u8> {
    seq![
        73u8,
        78,
        83,
        69,
        82,
        84,
        32,
        73,
        78,
        84,
        79,
        32,
        114,
        109,
        109,
        109,
        95,
        109,
        105,
        103,
        114,
        97,
        116,
        105,
        111,
        110,
        115,
        40,
        105,
        100,
        44,
        32,
        108,
        97,
        98,
        101,
        108,
        44,
        32,
        101,
        120,
        101,
        99,
        117,
        116,
        101,
        100,
        95,
        97,
        116,
        41,
        32,
        86,
        65,
        76,
        85,
        69,
        83,
        40,
    ]
}

/// `, '` between the id and the label.
pub open spec fn spec_insert_mid() -> Seq<u8> {
    seq![44u8, 32, 39]
}

/// `', UNIX_TIMESTAMP());` closing the insert statement.
pub open spec fn spec_insert_tail() -> Seq<u8> {
    seq![39u8, 44, 32, 85, 78, 73, 88, 95, 84, 73, 77, 69, 83, 84, 65, 77, 80, 40, 41, 41, 59]
}

/// The insert statement that restores one bookkeeping row.
pub open spec fn spec_insert_line(row: BookRowView) -> Seq<u8> {
    spec_insert_pre() + crate::text::spec_dec(row.id as nat) + spec_insert_mid() + row.label
        + spec_insert_tail()
}

/// Build the opening of the insert statement.
#[verifier::rlimit(50)]
fn insert_pre() -> (r: Vec<u8>)
    ensures
        r@ == spec_insert_pre(),
{
    let mut r: Vec<u8> = Vec::new();
    r.push(73);
    r.push(78);
    r.push(83);
    r.push(69);
    r.push(82);
    r.push(84);
    r.push(32);
    r.push(73);
    r.push(78);
    r.push(84);
    r.push(79);
    r.push(32);
    r.push(114);
    r.push(109);
    r.push(109);
    r.push(109);
    r.push(95);
    r.push(109);
    r.push(105);
    r.push(103);
    r.push(114);
    r.push(97);
    r.push(116);
    r.push(105);
    r.push(111);
    r.push(110);
    r.push(115);
    r.push(40);
    r.push(105);
    r.push(100);
    r.push(44);
    r.push(32);
    r.push(108);
    r.push(97);
    r.push(98);
    r.push(101);
    r.push(108);
    r.push(44);
    r.push(32);
    r.push(101);
    r.push(120);
    r.push(101);
    r.push(99);
    r.push(117);
    r.push(116);
    r.push(101);
    r.push(100);
    r.push(95);
    r.push(97);
    r.push(116);
    r.push(41);
    r.push(32);
    r.push(86);
    r.push(65);
    r.push(76);
    r.push(85);
    r.push(69);
    r.push(83);
    r.push(40);
    assert(r@ =~= spec_insert_pre());
    r
}

/// Build the closing of the insert statement.
fn insert_tail() -> (r: Vec<u8>)
    ensures
        r@ == spec_insert_tail(),
{
    let mut r: Vec<u8> = Vec::new();
    r.push(39);
    r.push(44);
    r.push(32);
    r.push(85);
    r.push(78);
    r.push(73);
    r.push(88);
    r.push(95);
    r.push(84);
    r.push(73);
    r.push(77);
    r.push(69);
    r.push(83);
    r.push(84);
    r.push(65);
    r.push(77);
    r.push(80);
    r.push(40);
    r.push(41);
    r.push(41);
    r.push(59);
    assert(r@ =~= spec_insert_tail());
    r
}

/// Build the insert statement of one bookkeeping row.
fn insert_line(row: &BookRow) -> (r: Vec<u8>)
    ensures
        r@ == spec_insert_line(row@),
{
    let mut r = insert_pre();
    let digits = crate::text::u64_to_dec(row.id);
    crate::text::extend_bytes(&mut r, &digits);
    r.push(44);
    r.push(32);
    r.push(39);
    crate::text::extend_bytes(&mut r, &row.label);
    let tail = insert_tail();
    crate::text::extend_bytes(&mut r, &tail);
    assert(r@ =~= spec_insert_line(row@));
    r
}

/// The snapshot lines the tables contribute: each create statement with a
/// closing `;`, each followed by a blank line.
pub open spec fn spec_table_lines(ts: Seq<TableDumpView>) -> Seq<Seq<u8>>
    decreases ts.len(),
{
    if ts.len() == 0 {
        Seq::empty()
    } else {
        spec_table_lines(ts.drop_last()) + seq![
            ts.last().create_sql + seq![59u8],
            Seq::<u8>::empty(),
        ]
    }
}

/// The snapshot lines the bookkeeping rows contribute, in given order.
pub open spec fn spec_insert_lines(rows: Seq<BookRowView>) -> Seq<Seq<u8>>
    decreases rows.len(),
{
    if rows.len() == 0 {
        Seq::empty()
    } else {
        spec_insert_lines(rows.drop_last()) + seq![spec_insert_line(rows.last())]
    }
}

/// Is the bookkeeping table among the dumped tables?
pub open spec fn spec_has_bookkeeping(ts: Seq<TableDumpView>) -> bool {
    exists|i: int| 0 <= i < ts.len() && (#[trigger] ts[i]).name == spec_bookkeeping_name()
}

/// The full schema snapshot: every table's create statement, then — if the
/// bookkeeping table is among them — one insert per executed migration, so
/// the snapshot restores both schema and history.  It ends with a trailing
/// blank line.
pub open spec fn spec_schema_dump(ts: Seq<TableDumpView>, rows: Seq<BookRowView>) -> Seq<u8> {
    let lines = spec_table_lines(ts) + (if spec_has_bookkeeping(ts) {
        seq![Seq::<u8>::empty()] + spec_insert_lines(rows)
    } else {
        Seq::empty()
    }) + seq![seq![10u8]];
    crate::text::spec_join(lines, 10)
}

/// Assemble the schema snapshot from the tables, in their given order, and
/// the bookkeeping rows, in their given order.
pub fn assemble_schema_dump(tables: &Vec<TableDump>, rows: &Vec<BookRow>) -> (r: Vec<u8>)
    ensures
        r@ == spec_schema_dump(tables.deep_view(), rows.deep_view()),
{
    let ghost tv = tables.deep_view();
    let ghost rv = rows.deep_view();
    let mut lines: Vec<Vec<u8>> = Vec::new();
    let mut i: usize = 0;
    assert(lines.deep_view() =~~= spec_table_lines(tv.subrange(0, 0)));
    while i < tables.len()
        invariant
            i <= tables@.len() == tv.len(),
            tv == tables.deep_view(),
            lines.deep_view() == spec_table_lines(tv.subrange(0, i as int)),
        decreases tables@.len() - i,
    {
        let ghost prev = lines.deep_view();
        assert(tv[i as int] == tables@[i as int]@);
        let mut stmt = copy_bytes(&tables[i].create_sql);
        stmt.push(59);
        lines.push(stmt);
        lines.push(Vec::new());
        proof {
            assert(lines.deep_view() =~~= prev + seq![
                tv[i as int].create_sql + seq![59u8],
                Seq::<u8>::empty(),
            ]);
            assert(tv.subrange(0, i + 1).drop_last() =~~= tv.subrange(0, i as int));
            assert(tv.subrange(0, i + 1).last() == tv[i as int]);
            assert(lines.deep_view() =~~= spec_table_lines(tv.subrange(0, i + 1)));
        }
        i = i + 1;
    }
    assert(tv.subrange(0, tv.len() as int) =~~= tv);
    let book = bookkeeping_name();
    let mut found = false;
    let mut k: usize = 0;
    while k < tables.len()
        invariant
            k <= tables@.len() == tv.len(),
            tv == tables.deep_view(),
            book@ == spec_bookkeeping_name(),
            lines.deep_view() == spec_table_lines(tv),
            found <==> exists|m: int|
                0 <= m < k && (#[trigger] tv[m]).name == spec_bookkeeping_name(),
        decreases tables@.len() - k,
    {
        assert(tv[k as int] == tables@[k as int]@);
        if crate::text::eq_bytes(&tables[k].name, &book) {
            found = true;
        }
        k = k + 1;
    }
    let ghost base = lines.deep_view();
    if found {
        lines.push(Vec::new());
        let ghost with_blank = lines.deep_view();
        assert(with_blank =~~= base + seq![Seq::<u8>::empty()]);
        let mut w: usize = 0;
        assert(lines.deep_view() =~~= with_blank + spec_insert_lines(rv.subrange(0, 0)));
        while w < rows.len()
            invariant
                w <= rows@.len() == rv.len(),
                rv == rows.deep_view(),
                with_blank == spec_table_lines(tv) + seq![Seq::<u8>::empty()],
                lines.deep_view() == with_blank + spec_insert_lines(rv.subrange(0, w as int)),
            decreases rows@.len() - w,
        {
            let ghost prev = lines.deep_view();
            assert(rv[w as int] == rows@[w as int]@);
            let line = insert_line(&rows[w]);
            lines.push(line);
            proof {
                assert(lines.deep_view() =~~= prev + seq![spec_insert_line(rv[w as int])]);
                assert(rv.subrange(0, w + 1).drop_last() =~~= rv.subrange(0, w as int));
                assert(rv.subrange(0, w + 1).last() == rv[w as int]);
                assert(lines.deep_view() =~~= with_blank + spec_insert_lines(
                    rv.subrange(0, w + 1),
                ));
            }
            w = w + 1;
        }
        assert(rv.subrange(0, rv.len() as int) =~~= rv);
    }
    let mut nl: Vec<u8> = Vec::new();
    nl.push(10);
    assert(nl@ =~= seq![10u8]);
    let ghost fin = lines.deep_view();
    lines.push(nl);
    assert(lines.deep_view() =~~= fin + seq![seq![10u8]]);
    proof {
        if found {
            assert(lines.deep_view() =~~= spec_table_lines(tv) + (seq![Seq::<u8>::empty()]
                + spec_insert_lines(rv)) + seq![seq![10u8]]);
        } else {
            assert(lines.deep_view() =~~= spec_table_lines(tv) + Seq::<Seq<u8>>::empty() + seq![
                seq![10u8],
            ]);
        }
    }
    crate::text::join_bytes(&lines, 10)
}

/// The statement that creates the bookkeeping table.
pub fn create_bookkeeping_sql() -> &'static str {
    "CREATE TABLE rmmm_migrations(id INT NOT NULL PRIMARY KEY, label VARCHAR(255) NOT NULL, executed_at BIGINT NOT NULL)"
}

/// The parameterized statement that records an executed migration.
pub fn record_execution_sql() -> &'static str {
    "INSERT INTO rmmm_migrations(id, label, executed_at) VALUES(?, ?, ?)"
}

/// The parameterized statement that removes a bookkeeping row.
pub fn remove_record_sql() -> &'static str {
    "DELETE FROM rmmm_migrations WHERE id = ?"
}

/// The query that tells whether the bookkeeping table exists.
pub fn bookkeeping_status_sql() -> &'static str {
    "SHOW TABLE STATUS LIKE 'rmmm_migrations'"
}

/// The query that reads every bookkeeping row.
pub fn select_bookkeeping_sql() -> &'static str {
    "SELECT id, executed_at FROM rmmm_migrations"
}

/// The query that reads the bookkeeping rows a snapshot reproduces.
pub fn select_bookkeeping_rows_sql() -> &'static str {
    "SELECT id, label FROM rmmm_migrations ORDER BY id ASC"
}

/// The query that names the current database.
pub fn current_database_sql() -> &'static str {
    "SELECT DATABASE()"
}

/// The parameterized query that lists the tables of a schema.
pub fn list_tables_sql() -> &'static str {
    "SELECT TABLE_NAME FROM information_schema.tables WHERE table_schema=?"
}

/// The statement `DROP TABLE` with the name in backticks.  Names are
/// interpolated into a quoted identifier,
/// so a backtick in the name is left out by contract.
pub fn drop_table_sql(name: &Vec<u8>) -> (r: Vec<u8>)
    requires
        forall|i: int| 0 <= i < name@.len() ==> #[trigger] name@[i] != 96,
    ensures
        r@ == seq![68u8, 82, 79, 80, 32, 84, 65, 66, 76, 69, 32, 96] + name@ + seq![96u8],
{
    let mut r: Vec<u8> = Vec::new();
    r.push(68);
    r.push(82);
    r.push(79);
    r.push(80);
    r.push(32);
    r.push(84);
    r.push(65);
    r.push(66);
    r.push(76);
    r.push(69);
    r.push(32);
    r.push(96);
    crate::text::extend_bytes(&mut r, name);
    r.push(96);
    assert(r@ =~= seq![68u8, 82, 79, 80, 32, 84, 65, 66, 76, 69, 32, 96] + name@ + seq![96u8]);
    r
}

/// The statement `SHOW CREATE TABLE` with the name in backticks, under
/// the same backtick contract.
pub fn show_create_sql(name: &Vec<u8>) -> (r: Vec<u8>)
    requires
        forall|i: int| 0 <= i < name@.len() ==> #[trigger] name@[i] != 96,
    ensures
        r@ == seq![
            83u8, 72, 79, 87, 32, 67, 82, 69, 65, 84, 69, 32, 84, 65, 66, 76, 69, 32, 96,
        ] + name@ + seq![96u8],
{
    let mut r: Vec<u8> = Vec::new();
    r.push(83);
    r.push(72);
    r.push(79);
    r.push(87);
    r.push(32);
    r.push(67);
    r.push(82);
    r.push(69);
    r.push(65);
    r.push(84);
    r.push(69);
    r.push(32);
    r.push(84);
    r.push(65);
    r.push(66);
    r.push(76);
    r.push(69);
    r.push(32);
    r.push(96);
    crate::text::extend_bytes(&mut r, name);
    r.push(96);
    assert(r@ =~= seq![
        83u8, 72, 79, 87, 32, 67, 82, 69, 65, 84, 69, 32, 84, 65, 66, 76, 69, 32, 96,
    ] + name@ + seq![96u8]);
    r
}

} // verus!
