//! Updates and deletes of a node table, applied to its rows.

use vstd::prelude::*;

use crate::error::{corrupt, invalid_argument, DevonError, DevonResult, ErrorKind};
use crate::groups;
use crate::keys;
use crate::keys::{value_kind, KeyMap, KeyView, PkKey};
use crate::node_table::validate_row;
use crate::picked;
use crate::schema;
use crate::schema::NodeTableSchema;
use crate::text::{and_name, with_name, with_number};
use crate::types;
use crate::types::{duplicate_values, Value, ValueView};

verus! {

/// Whether a checkpoint's caller has proved that deleting rows may move the
/// rows behind them.
#[derive(Debug, Clone, Copy, PartialEq, Eq, Structural)]
pub enum DeleteCompaction {
    /// Deletes may remove rows.
    Permitted,
    /// Deletes fail, since other rows' offsets may be in use.
    Forbidden,
}

/// The updates and deletes of a table: the newest row of each updated key,
/// and the keys that are deleted.
#[derive(Debug)]
pub struct NodeDmlEffects {
    rows: Vec<Vec<Value>>,
    row_keys: Vec<PkKey>,
    updates: KeyMap,
    tombstones: KeyMap,
}

/// What updates and deletes say.
#[verifier::ext_equal]
pub struct EffectsView {
    pub updates: Map<KeyView, Seq<ValueView>>,
    pub tombstones: Set<KeyView>,
}

impl View for NodeDmlEffects {
    type V = EffectsView;

    closed spec fn view(&self) -> EffectsView {
        EffectsView {
            updates: Map::new(
                |key: KeyView| self.updates@.contains_key(key),
                |key: KeyView| types::views(self.rows@[self.updates@[key] as int]@),
            ),
            tombstones: self.tombstones@.dom(),
        }
    }
}

impl EffectsView {
    /// No update and no delete.
    pub open spec fn none() -> EffectsView {
        EffectsView { updates: Map::empty(), tombstones: Set::empty() }
    }
}

impl NodeDmlEffects {
    /// Every updated key has its row.
    pub closed spec fn wf(self) -> bool {
        &&& self.updates.wf()
        &&& self.tombstones.wf()
        &&& self.row_keys@.len() == self.rows@.len()
        &&& forall|key: KeyView| #[trigger]
            self.updates@.contains_key(key) ==> self.updates@[key] < self.rows@.len()
                && self.row_keys@[self.updates@[key] as int]@ == key
    }

    /// No update and no delete.
    pub fn new() -> (effects: NodeDmlEffects)
        ensures
            effects.wf(),
            effects@ == EffectsView::none(),
    {
        let effects = NodeDmlEffects {
            rows: Vec::new(),
            row_keys: Vec::new(),
            updates: KeyMap::new(),
            tombstones: KeyMap::new(),
        };
        assert(effects@ =~= EffectsView::none());
        effects
    }

    /// Whether no key is updated.
    pub fn no_updates(&self) -> (none: bool)
        requires
            self.wf(),
        ensures
            none == (self@.updates == Map::<KeyView, Seq<ValueView>>::empty()),
    {
        let none: bool = self.updates.is_empty();
        proof {
            if none {
                assert(self@.updates =~= Map::<KeyView, Seq<ValueView>>::empty());
            } else if self@.updates == Map::<KeyView, Seq<ValueView>>::empty() {
                assert forall|key: KeyView| !self.updates@.contains_key(key) by {
                    assert(!self@.updates.contains_key(key));
                }
                assert(self.updates@ =~= Map::<KeyView, usize>::empty());
            }
        }
        none
    }

    /// Whether no key is deleted.
    pub fn no_tombstones(&self) -> (none: bool)
        requires
            self.wf(),
        ensures
            none == (self@.tombstones == Set::<KeyView>::empty()),
    {
        let none: bool = self.tombstones.is_empty();
        proof {
            if none {
                assert(self@.tombstones =~= Set::<KeyView>::empty());
            } else if self@.tombstones == Set::<KeyView>::empty() {
                assert forall|key: KeyView| !self.tombstones@.contains_key(key) by {
                    assert(!self@.tombstones.contains(key));
                }
                assert(self.tombstones@ =~= Map::<KeyView, usize>::empty());
            }
        }
        none
    }

    /// The newest row of an updated key.
    pub fn update_of(&self, key: &PkKey) -> (row: Option<&Vec<Value>>)
        requires
            self.wf(),
        ensures
            match row {
                Some(row) => self@.updates.contains_key(key@) && self@.updates[key@]
                    == types::views(row@),
                None => !self@.updates.contains_key(key@),
            },
    {
        match self.updates.get(key) {
            Some(at) => Some(&self.rows[at]),
            None => None,
        }
    }

    /// Whether a key is deleted.
    pub fn is_deleted(&self, key: &PkKey) -> (yes: bool)
        requires
            self.wf(),
        ensures
            yes == self@.tombstones.contains(key@),
    {
        self.tombstones.get(key).is_some()
    }

    /// Takes a row as its key's newest.
    pub fn set_update(&mut self, key: PkKey, row: Vec<Value>)
        requires
            old(self).wf(),
        ensures
            final(self).wf(),
            final(self)@ == (EffectsView {
                updates: old(self)@.updates.insert(key@, types::views(row@)),
                ..old(self)@
            }),
    {
        let ghost before = *self;
        let ghost shown = key@;
        let ghost added = types::views(row@);
        let at: usize = self.rows.len();
        self.rows.push(row);
        self.row_keys.push(key.duplicate());
        self.updates.insert(key, at);
        proof {
            assert forall|key: KeyView| #[trigger] self.updates@.contains_key(key) implies self.updates@[key]
                < self.rows@.len() && self.row_keys@[self.updates@[key] as int]@ == key by {
                if key != shown {
                    assert(before.updates@.contains_key(key));
                }
            }
            assert forall|key: KeyView| #[trigger] self@.updates.contains_key(key) implies self@.updates[key]
                == before@.updates.insert(shown, added)[key] by {
                if key != shown {
                    assert(before.updates@.contains_key(key));
                }
            }
            assert(self@.updates =~= before@.updates.insert(shown, added));
            assert(self@.tombstones =~= before@.tombstones);
        }
    }

    /// Forgets a key's update; whether there was one.
    pub fn drop_update(&mut self, key: &PkKey) -> (was: bool)
        requires
            old(self).wf(),
        ensures
            final(self).wf(),
            was == old(self)@.updates.contains_key(key@),
            final(self)@ == (EffectsView {
                updates: old(self)@.updates.remove(key@),
                ..old(self)@
            }),
    {
        let ghost before = *self;
        let was: bool = self.updates.remove(key).is_some();
        proof {
            assert forall|other: KeyView| #[trigger] self.updates@.contains_key(other) implies self.updates@[other]
                < self.rows@.len() && self.row_keys@[self.updates@[other] as int]@ == other by {
                assert(before.updates@.contains_key(other));
            }
            assert forall|other: KeyView| #[trigger] self@.updates.contains_key(other) implies self@.updates[other]
                == before@.updates.remove(key@)[other] by {
                assert(before.updates@.contains_key(other));
            }
            assert(self@.updates =~= before@.updates.remove(key@));
            assert(self@.tombstones =~= before@.tombstones);
        }
        was
    }

    /// Marks a key deleted.
    pub fn set_deleted(&mut self, key: PkKey)
        requires
            old(self).wf(),
        ensures
            final(self).wf(),
            final(self)@ == (EffectsView {
                tombstones: old(self)@.tombstones.insert(key@),
                ..old(self)@
            }),
    {
        let ghost before = *self;
        let ghost shown = key@;
        self.tombstones.insert(key, 0);
        assert(self@.tombstones =~= before@.tombstones.insert(shown));
        assert(self@.updates =~= before@.updates);
    }

    /// Forgets that a key is deleted; whether it was.
    pub fn drop_deleted(&mut self, key: &PkKey) -> (was: bool)
        requires
            old(self).wf(),
        ensures
            final(self).wf(),
            was == old(self)@.tombstones.contains(key@),
            final(self)@ == (EffectsView {
                tombstones: old(self)@.tombstones.remove(key@),
                ..old(self)@
            }),
    {
        let ghost before = *self;
        let was: bool = self.tombstones.remove(key).is_some();
        assert(self@.tombstones =~= before@.tombstones.remove(key@));
        assert(self@.updates =~= before@.updates);
        was
    }
}

/// Whether each update is a row of the schema that has its key, and no
/// updated key is deleted.
pub open spec fn effects_lawful(
    effects: EffectsView,
    columns: Seq<schema::ColumnView>,
    key_column: int,
) -> bool {
    forall|key: KeyView| #[trigger]
        effects.updates.contains_key(key) ==> schema::row_fits(columns, effects.updates[key])
            && keys::row_key(effects.updates[key], key_column) == Some(key)
            && !effects.tombstones.contains(key)
}

impl NodeDmlEffects {
    /// What is said of updates that are not lawful: of keys that are deleted
    /// too, else of the first key in order whose row is not its row.
    pub(crate) fn fault(&self, schema: &NodeTableSchema, key_column: usize) -> (error: DevonError)
        requires
            self.wf(),
        ensures
            error.kind_of() == ErrorKind::Corrupt,
    {
        let table: &str = schema.name.as_str();
        let mut worst: Option<usize> = None;
        let mut i: usize = 0;
        while i < self.rows.len()
            invariant
                i <= self.rows@.len(),
                self.wf(),
                worst matches Some(at) ==> at < self.rows@.len(),
            decreases self.rows@.len() - i,
        {
            let key: &PkKey = &self.row_keys[i];
            let mut current: bool = false;
            match self.updates.get(key) {
                Some(at) => {
                    current = at == i;
                },
                None => {},
            }
            if current {
                if self.is_deleted(key) {
                    return corrupt(
                        with_name(
                            "node table `",
                            table,
                            "` has a primary key with both update and delete effects",
                        ).as_str(),
                    );
                }
                let valid: bool = validate_row(schema, &self.rows[i]).is_ok();
                let named: bool = match PkKey::of_row(&self.rows[i], key_column) {
                    Some(found) => found.same(key),
                    None => false,
                };
                let earlier: bool = match worst {
                    Some(at) => key.stands_before(&self.row_keys[at]),
                    None => true,
                };
                if !(valid && named) && earlier {
                    worst = Some(i);
                }
            }
            i += 1;
        }
        match worst {
            Some(at) => match validate_row(schema, &self.rows[at]) {
                Err(error) => corrupt(
                    and_name(
                        with_name(
                            "checkpoint update for node table `",
                            table,
                            "` carries an invalid replacement row: ",
                        ),
                        error.text(),
                        "",
                    ).as_str(),
                ),
                Ok(()) => corrupt(
                    and_name(
                        with_name(
                            "checkpoint update key ",
                            self.row_keys[at].spelled().as_str(),
                            " disagrees with its replacement row in node table `",
                        ),
                        table,
                        "`",
                    ).as_str(),
                ),
            },
            None => corrupt(
                with_name("checkpoint update for node table `", table, "` is invalid").as_str(),
            ),
        }
    }

    /// What is said of effects that met no row: the first updated key in
    /// order, else the first deleted one. Numbers come before texts.
    pub(crate) fn unmet(&self, table: &str) -> (error: DevonError)
        requires
            self.wf(),
        ensures
            error.kind_of() == ErrorKind::Corrupt,
    {
        let (kind, key): (&str, Option<PkKey>) = match self.updates.first() {
            Some(key) => ("checkpoint update for node table `", Some(key)),
            None => ("checkpoint delete for node table `", self.tombstones.first()),
        };
        let spelled: String = match key {
            Some(key) => key.spelled(),
            None => String::new(),
        };
        corrupt(
            and_name(
                with_name(kind, table, "` targets primary key "),
                spelled.as_str(),
                " which exists nowhere in persisted or overlay rows",
            ).as_str(),
        )
    }

    /// Whether each update is a row of the schema that has its key, and no
    /// updated key is deleted.
    pub(crate) fn are_lawful(&self, schema: &NodeTableSchema, key_column: usize) -> (yes: bool)
        requires
            self.wf(),
        ensures
            yes == effects_lawful(self@, schema@.columns, key_column as int),
    {
        let mut i: usize = 0;
        while i < self.rows.len()
            invariant
                i <= self.rows@.len(),
                self.wf(),
                forall|key: KeyView| #[trigger]
                    self@.updates.contains_key(key) && self.updates@[key] < i ==> schema::row_fits(
                        schema@.columns,
                        self@.updates[key],
                    ) && keys::row_key(self@.updates[key], key_column as int) == Some(key)
                        && !self@.tombstones.contains(key),
            decreases self.rows@.len() - i,
        {
            let key: &PkKey = &self.row_keys[i];
            let mut current: bool = false;
            match self.updates.get(key) {
                Some(at) => {
                    current = at == i;
                },
                None => {},
            }
            if current {
                assert(self@.updates.contains_key(key@));
                assert(self@.updates[key@] == types::views(self.rows@[i as int]@));
                if validate_row(schema, &self.rows[i]).is_err() || self.is_deleted(key) {
                    return false;
                }
                let named: Option<PkKey> = PkKey::of_row(&self.rows[i], key_column);
                match named {
                    Some(found) => {
                        if !found.same(key) {
                            return false;
                        }
                    },
                    None => {
                        return false;
                    },
                }
            }
            proof {
                assert forall|other: KeyView| #[trigger]
                    self@.updates.contains_key(other) && self.updates@[other]
                        < i + 1 implies schema::row_fits(schema@.columns, self@.updates[other])
                    && keys::row_key(self@.updates[other], key_column as int) == Some(other)
                    && !self@.tombstones.contains(other) by {
                    assert(self.updates@.contains_key(other));
                    if self.updates@[other] == i {
                        assert(self.row_keys@[i as int]@ == other);
                    }
                }
            }
            i += 1;
        }
        assert forall|key: KeyView| #[trigger] self@.updates.contains_key(key) implies self.updates@[key]
            < self.rows@.len() by {
            assert(self.updates@.contains_key(key));
        }
        true
    }
}

/// What applying updates and deletes to rows gives: the rows that are left,
/// whether any changed and whether any went, and the effects that no row
/// has met yet.
#[verifier::ext_equal]
pub struct Applied {
    pub rows: Seq<Seq<ValueView>>,
    pub changed: bool,
    pub deleted: bool,
    pub effects: EffectsView,
}

/// Applies updates and deletes to one row more. A row whose key is in
/// `shadowed` goes: a newer row has its key.
pub open spec fn apply_row(
    before: Applied,
    row: Seq<ValueView>,
    key_column: int,
    shadowed: Set<KeyView>,
    compaction: DeleteCompaction,
) -> Result<Applied, ErrorKind> {
    if key_column >= row.len() {
        Err(ErrorKind::Corrupt)
    } else {
        match keys::key_of(row[key_column]) {
            None => Err(ErrorKind::Corrupt),
            Some(key) => if shadowed.contains(key) {
                if compaction == DeleteCompaction::Forbidden {
                    Err(ErrorKind::InvalidArgument)
                } else {
                    Ok(Applied { changed: true, deleted: true, ..before })
                }
            } else if before.effects.tombstones.contains(key) {
                Ok(
                    Applied {
                        changed: true,
                        deleted: true,
                        effects: EffectsView {
                            tombstones: before.effects.tombstones.remove(key),
                            ..before.effects
                        },
                        ..before
                    },
                )
            } else if before.effects.updates.contains_key(key) {
                Ok(
                    Applied {
                        rows: before.rows.push(before.effects.updates[key]),
                        changed: true,
                        effects: EffectsView {
                            updates: before.effects.updates.remove(key),
                            ..before.effects
                        },
                        ..before
                    },
                )
            } else {
                Ok(Applied { rows: before.rows.push(row), ..before })
            },
        }
    }
}

/// Applies updates and deletes to the first `n` rows in order.
pub open spec fn apply(
    rows: Seq<Seq<ValueView>>,
    key_column: int,
    effects: EffectsView,
    shadowed: Set<KeyView>,
    compaction: DeleteCompaction,
    n: nat,
) -> Result<Applied, ErrorKind>
    decreases n,
{
    if n == 0 {
        Ok(Applied { rows: Seq::empty(), changed: false, deleted: false, effects })
    } else {
        match apply(rows, key_column, effects, shadowed, compaction, (n - 1) as nat) {
            Err(kind) => Err(kind),
            Ok(before) => apply_row(before, rows[n - 1], key_column, shadowed, compaction),
        }
    }
}

/// Once applying fails, more rows do not change that.
pub proof fn lemma_apply_fails(
    rows: Seq<Seq<ValueView>>,
    key_column: int,
    effects: EffectsView,
    shadowed: Set<KeyView>,
    compaction: DeleteCompaction,
    at: nat,
    n: nat,
)
    requires
        at <= n,
        apply(rows, key_column, effects, shadowed, compaction, at) is Err,
    ensures
        apply(rows, key_column, effects, shadowed, compaction, n) == apply(
            rows,
            key_column,
            effects,
            shadowed,
            compaction,
            at,
        ),
    decreases n,
{
    if at < n {
        lemma_apply_fails(rows, key_column, effects, shadowed, compaction, at, (n - 1) as nat);
    }
}

/// Applying keeps rows typed: they are old rows or updates.
pub proof fn lemma_apply_typed(
    rows: Seq<Seq<ValueView>>,
    key_column: int,
    effects: EffectsView,
    shadowed: Set<KeyView>,
    compaction: DeleteCompaction,
    n: nat,
    types: Seq<types::LogicalType>,
)
    requires
        n <= rows.len(),
        groups::rows_typed(types, rows),
        forall|key: KeyView| #[trigger]
            effects.updates.contains_key(key) ==> groups::values_fit(types, effects.updates[key]),
        apply(rows, key_column, effects, shadowed, compaction, n) is Ok,
    ensures
        ({
            let after = apply(rows, key_column, effects, shadowed, compaction, n)->Ok_0;
            &&& groups::rows_typed(types, after.rows)
            &&& after.rows.len() <= n
            &&& !after.deleted ==> after.rows.len() == n
            &&& !after.changed ==> after.rows == rows.subrange(0, n as int) && !after.deleted
            &&& forall|key: KeyView| #[trigger]
                after.effects.updates.contains_key(key) ==> groups::values_fit(
                    types,
                    after.effects.updates[key],
                )
        }),
    decreases n,
{
    if n > 0 {
        lemma_apply_typed(rows, key_column, effects, shadowed, compaction, (n - 1) as nat, types);
        let before = apply(
            rows,
            key_column,
            effects,
            shadowed,
            compaction,
            (n - 1) as nat,
        )->Ok_0;
        let after = apply(rows, key_column, effects, shadowed, compaction, n)->Ok_0;
        assert(rows.subrange(0, n as int) =~= rows.subrange(0, n - 1).push(rows[n - 1]));
        assert forall|i: int| 0 <= i < after.rows.len() implies groups::values_fit(
            types,
            #[trigger] after.rows[i],
        ) by {
            if i < before.rows.len() {
                assert(after.rows[i] == before.rows[i]);
            } else {
                assert(groups::values_fit(types, rows[n - 1]));
            }
        }
    } else {
        assert(rows.subrange(0, 0) =~= Seq::empty());
    }
}

/// Applies updates and deletes to rows; the rows that are left, whether any
/// What is said of a row without a key.
fn keyless_row(row: &Vec<Value>, key_column: usize) -> (error: DevonError)
    ensures
        error.kind_of() == ErrorKind::Corrupt,
{
    if key_column < row.len() {
        corrupt(
            with_name(
                "node row primary key must be Int64 or String, found ",
                value_kind(&row[key_column]),
                "",
            ).as_str(),
        )
    } else {
        corrupt(
            with_number(
                "node row has no primary-key column at index ",
                key_column as u64,
                "",
            ).as_str(),
        )
    }
}

/// changed, and whether any went.
pub(crate) fn apply_dml_effects(
    rows: &Vec<Vec<Value>>,
    key_column: usize,
    effects: &mut NodeDmlEffects,
    shadowed: &KeyMap,
    compaction: DeleteCompaction,
) -> (result: DevonResult<(Vec<Vec<Value>>, bool, bool)>)
    requires
        old(effects).wf(),
        shadowed.wf(),
    ensures
        final(effects).wf(),
        match (
            result,
            apply(
                groups::rows_of(rows@),
                key_column as int,
                old(effects)@,
                shadowed@.dom(),
                compaction,
                rows@.len(),
            ),
        ) {
            (Ok((left, changed, deleted)), Ok(after)) => after == (Applied {
                rows: groups::rows_of(left@),
                changed,
                deleted,
                effects: final(effects)@,
            }),
            (Err(error), Err(kind)) => error.kind_of() == kind,
            _ => false,
        },
{
    let ghost shown = groups::rows_of(rows@);
    let ghost first = effects@;
    let mut output: Vec<Vec<Value>> = Vec::new();
    let mut changed: bool = false;
    let mut deleted: bool = false;
    let mut i: usize = 0;
    assert(groups::rows_of(output@) =~= Seq::empty());
    while i < rows.len()
        invariant
            i <= rows@.len(),
            shown == groups::rows_of(rows@),
            first == old(effects)@,
            effects.wf(),
            shadowed.wf(),
            apply(shown, key_column as int, first, shadowed@.dom(), compaction, i as nat) == Ok::<
                Applied,
                ErrorKind,
            >(
                (Applied {
                    rows: groups::rows_of(output@),
                    changed,
                    deleted,
                    effects: effects@,
                }),
            ),
        decreases rows@.len() - i,
    {
        let ghost left = groups::rows_of(output@);
        let ghost before = Applied { rows: left, changed, deleted, effects: effects@ };
        assert(shown[i as int] == types::views(rows@[i as int]@));
        let key: PkKey = match PkKey::of_row(&rows[i], key_column) {
            Some(key) => key,
            None => {
                proof {
                    lemma_apply_fails(
                        shown,
                        key_column as int,
                        first,
                        shadowed@.dom(),
                        compaction,
                        (i + 1) as nat,
                        rows@.len(),
                    );
                }
                return Err(
                    keyless_row(&rows[i], key_column),
                );
            },
        };
        if shadowed.get(&key).is_some() {
            if compaction == DeleteCompaction::Forbidden {
                proof {
                    lemma_apply_fails(
                        shown,
                        key_column as int,
                        first,
                        shadowed@.dom(),
                        compaction,
                        (i + 1) as nat,
                        rows@.len(),
                    );
                }
                return Err(
                    invalid_argument(
                        "delete compaction was not affirmed; reviving an inserted primary key shifts load-bearing node offsets",
                    ),
                );
            }
            changed = true;
            deleted = true;
        } else if effects.is_deleted(&key) {
            effects.drop_deleted(&key);
            changed = true;
            deleted = true;
        } else {
            let replacement: Option<Vec<Value>> = match effects.update_of(&key) {
                Some(row) => Some(duplicate_values(row.as_slice())),
                None => None,
            };
            match replacement {
                Some(row) => {
                    let ghost added = types::views(row@);
                    output.push(row);
                    assert(groups::rows_of(output@) =~= left.push(added));
                    effects.drop_update(&key);
                    changed = true;
                },
                None => {
                    output.push(duplicate_values(rows[i].as_slice()));
                    assert(groups::rows_of(output@) =~= left.push(shown[i as int]));
                },
            }
        }
        proof {
            let after = Applied {
                rows: groups::rows_of(output@),
                changed,
                deleted,
                effects: effects@,
            };
            assert(apply_row(
                before,
                shown[i as int],
                key_column as int,
                shadowed@.dom(),
                compaction,
            )->Ok_0 =~= after);
        }
        i += 1;
    }
    Ok((output, changed, deleted))
}

/// Whether a key is the key of a row at or behind `from`.
pub open spec fn key_from(
    rows: Seq<Seq<ValueView>>,
    key_column: int,
    from: int,
    key: KeyView,
) -> bool {
    exists|i: int|
        from <= i < rows.len() && keys::row_key(#[trigger] rows[i], key_column) == Some(key)
}

/// The rows from one on whose key no later row has.
pub open spec fn newest_from(
    rows: Seq<Seq<ValueView>>,
    key_column: int,
    from: nat,
) -> Seq<Seq<ValueView>>
    decreases rows.len() - from,
{
    if from >= rows.len() {
        Seq::empty()
    } else {
        let rest = newest_from(rows, key_column, from + 1);
        if key_from(
            rows,
            key_column,
            from as int + 1,
            keys::row_key(rows[from as int], key_column)->Some_0,
        ) {
            rest
        } else {
            seq![rows[from as int]] + rest
        }
    }
}

/// The newest rows are all those whose key no later row has, in order.
pub proof fn law_newest_rows_are_kept(rows: Seq<Seq<ValueView>>, key_column: int, from: nat)
    requires
        from <= rows.len(),
        all_keyed(rows, key_column),
    ensures
        picked::gives(
            newest_from(rows, key_column, from),
            Seq::new((rows.len() - from) as nat, |i: int| from + i),
            |i: int|
                if exists|later: int|
                    i < later < rows.len() && keys::row_key(#[trigger] rows[later], key_column)
                        == keys::row_key(rows[i], key_column) {
                    None
                } else {
                    Some(rows[i])
                },
        ),
    decreases rows.len() - from,
{
    let of = |i: int|
        if exists|later: int|
            i < later < rows.len() && keys::row_key(#[trigger] rows[later], key_column)
                == keys::row_key(rows[i], key_column) {
            None
        } else {
            Some(rows[i])
        };
    let all = Seq::new((rows.len() - from) as nat, |i: int| from + i);
    if from == rows.len() {
        picked::lemma_gives_none(all, of);
    } else {
        let rest = Seq::new((rows.len() - (from + 1)) as nat, |i: int| (from + 1) + i);
        law_newest_rows_are_kept(rows, key_column, from + 1);
        assert(all =~= seq![from as int] + rest);
        let part = newest_from(rows, key_column, from + 1);
        picked::lemma_gives_before(part, rest, of, from as int);
        let key = keys::row_key(rows[from as int], key_column)->Some_0;
        assert(keys::row_key(rows[from as int], key_column) is Some);
        assert(key_from(rows, key_column, from as int + 1, key) <==> of(from as int) is None) by {
            if key_from(rows, key_column, from as int + 1, key) {
                let i = choose|i: int|
                    from + 1 <= i < rows.len() && keys::row_key(#[trigger] rows[i], key_column)
                        == Some(key);
                assert(keys::row_key(rows[i], key_column) == keys::row_key(
                    rows[from as int],
                    key_column,
                ));
            }
        }
    }
}

/// Applying updates and deletes to rows of which no two share a key keeps every row that is
/// neither deleted nor shadowed, in order: the updated ones as the update says, the others as they
/// are. What is left of the effects is what no row has met, and it says whether any row changed
/// and whether any went.
pub proof fn law_each_row_meets_its_effect(
    rows: Seq<Seq<ValueView>>,
    key_column: int,
    effects: EffectsView,
    shadowed: Set<KeyView>,
    compaction: DeleteCompaction,
)
    requires
        apply(rows, key_column, effects, shadowed, compaction, rows.len()) is Ok,
        0 <= key_column,
        forall|i: int, j: int|
            0 <= i < j < rows.len() ==> keys::row_key(#[trigger] rows[i], key_column)
                != keys::row_key(#[trigger] rows[j], key_column),
    ensures
        ({
            let applied = apply(
                rows,
                key_column,
                effects,
                shadowed,
                compaction,
                rows.len(),
            )->Ok_0;
            &&& all_keyed(rows, key_column)
            &&& picked::gives(
                applied.rows,
                rows,
                |row: Seq<ValueView>|
                    {
                        let key = keys::row_key(row, key_column)->Some_0;
                        if shadowed.contains(key) || effects.tombstones.contains(key) {
                            None
                        } else if effects.updates.contains_key(key) {
                            Some(effects.updates[key])
                        } else {
                            Some(row)
                        }
                    },
            )
            &&& applied.deleted <==> exists|i: int|
                0 <= i < rows.len() && (shadowed.contains(
                    keys::row_key(#[trigger] rows[i], key_column)->Some_0,
                ) || effects.tombstones.contains(keys::row_key(rows[i], key_column)->Some_0))
            &&& applied.changed <==> applied.deleted || exists|i: int|
                0 <= i < rows.len() && effects.updates.contains_key(
                    keys::row_key(#[trigger] rows[i], key_column)->Some_0,
                )
            &&& forall|key: KeyView|
                #![trigger applied.effects.tombstones.contains(key)]
                #![trigger effects.tombstones.contains(key)]
                applied.effects.tombstones.contains(key) <==> effects.tombstones.contains(key) && (
                shadowed.contains(key) || !key_from(rows, key_column, 0, key))
            &&& forall|key: KeyView|
                #![trigger applied.effects.updates.contains_key(key)]
                #![trigger effects.updates.contains_key(key)]
                {
                    &&& applied.effects.updates.contains_key(key) <==> effects.updates.contains_key(
                        key,
                    ) && (shadowed.contains(key) || effects.tombstones.contains(key) || !key_from(
                        rows,
                        key_column,
                        0,
                        key,
                    ))
                    &&& applied.effects.updates.contains_key(key)
                        ==> applied.effects.updates[key] == effects.updates[key]
                }
        }),
    decreases rows.len(),
{
    let of = |row: Seq<ValueView>|
        {
            let key = keys::row_key(row, key_column)->Some_0;
            if shadowed.contains(key) || effects.tombstones.contains(key) {
                None
            } else if effects.updates.contains_key(key) {
                Some(effects.updates[key])
            } else {
                Some(row)
            }
        };
    if rows.len() == 0 {
        picked::lemma_gives_none(rows, of);
    } else {
        let rest = rows.drop_last();
        let last = rows.last();
        let n = rest.len();
        lemma_same_apply(rest, rows, key_column, effects, shadowed, compaction, n);
        assert forall|i: int, j: int| 0 <= i < j < rest.len() implies keys::row_key(
            #[trigger] rest[i],
            key_column,
        ) != keys::row_key(#[trigger] rest[j], key_column) by {
            assert(rest[i] == rows[i] && rest[j] == rows[j]);
        }
        law_each_row_meets_its_effect(rest, key_column, effects, shadowed, compaction);
        let before = apply(rest, key_column, effects, shadowed, compaction, n)->Ok_0;
        let applied = apply(rows, key_column, effects, shadowed, compaction, n + 1)->Ok_0;
        assert(rows =~= rest.push(last));
        let own = keys::row_key(last, key_column)->Some_0;
        assert(!key_from(rest, key_column, 0, own)) by {
            if key_from(rest, key_column, 0, own) {
                let i = choose|i: int|
                    0 <= i < rest.len() && keys::row_key(#[trigger] rest[i], key_column) == Some(
                        own,
                    );
                assert(rows[i] == rest[i]);
                assert(rows[n as int] == last);
            }
        }
        assert forall|key: KeyView| #[trigger] key_from(rows, key_column, 0, key) <==> key_from(
            rest,
            key_column,
            0,
            key,
        ) || key == own by {
            assert(rows[n as int] == last);
            if key_from(rest, key_column, 0, key) {
                let i = choose|i: int|
                    0 <= i < rest.len() && keys::row_key(#[trigger] rest[i], key_column) == Some(
                        key,
                    );
                assert(rows[i] == rest[i]);
            }
            if key_from(rows, key_column, 0, key) {
                let i = choose|i: int|
                    0 <= i < rows.len() && keys::row_key(#[trigger] rows[i], key_column) == Some(
                        key,
                    );
                if i < n {
                    assert(rows[i] == rest[i]);
                }
            }
        }
        assert(forall|i: int| 0 <= i < n ==> #[trigger] rows[i] == rest[i]);
        assert(forall|i: int| 0 <= i < n ==> #[trigger] rest[i] == rows[i]);
        assert(rows[n as int] == last);
        assert(before.effects.tombstones.contains(own) <==> effects.tombstones.contains(own));
        assert(before.effects.updates.contains_key(own) <==> effects.updates.contains_key(own));
        picked::lemma_gives_more(before.rows, rest, of, last);
    }
}

/// Applying to the first rows does not depend on those behind them.
proof fn lemma_same_apply(
    a: Seq<Seq<ValueView>>,
    b: Seq<Seq<ValueView>>,
    key_column: int,
    effects: EffectsView,
    shadowed: Set<KeyView>,
    compaction: DeleteCompaction,
    n: nat,
)
    requires
        n <= a.len(),
        n <= b.len(),
        forall|i: int| 0 <= i < n ==> a[i] == b[i],
    ensures
        apply(a, key_column, effects, shadowed, compaction, n) == apply(
            b,
            key_column,
            effects,
            shadowed,
            compaction,
            n,
        ),
    decreases n,
{
    if n > 0 {
        lemma_same_apply(a, b, key_column, effects, shadowed, compaction, (n - 1) as nat);
    }
}

/// Whether all rows have keys.
pub open spec fn all_keyed(rows: Seq<Seq<ValueView>>, key_column: int) -> bool {
    forall|i: int| 0 <= i < rows.len() ==> keys::row_key(#[trigger] rows[i], key_column) is Some
}

/// The keys of rows.
pub open spec fn keys_of(rows: Seq<Seq<ValueView>>, key_column: int) -> Set<KeyView> {
    Set::new(|key: KeyView| key_from(rows, key_column, 0, key))
}

/// Keeps the newest row of each key, in order, and collects the keys.
pub(crate) fn normalize_buffered_rows(rows: &Vec<Vec<Value>>, key_column: usize) -> (result:
    DevonResult<(Vec<Vec<Value>>, KeyMap)>)
    ensures
        match result {
            Ok((newest, found)) => {
                &&& all_keyed(groups::rows_of(rows@), key_column as int)
                &&& groups::rows_of(newest@) == newest_from(
                    groups::rows_of(rows@),
                    key_column as int,
                    0,
                )
                &&& found.wf()
                &&& found@.dom() == keys_of(groups::rows_of(rows@), key_column as int)
            },
            Err(error) => {
                &&& !all_keyed(groups::rows_of(rows@), key_column as int)
                &&& error.kind_of() == ErrorKind::Corrupt
            },
        },
{
    let ghost shown = groups::rows_of(rows@);
    let mut found: KeyMap = KeyMap::new();
    let mut turned: Vec<Vec<Value>> = Vec::new();
    let mut i: usize = rows.len();
    assert(groups::rows_of(turned@).reverse() =~= Seq::empty());
    assert(found@.dom() =~= Set::new(
        |key: KeyView| key_from(shown, key_column as int, i as int, key),
    ));
    while i > 0
        invariant
            i <= rows@.len(),
            shown == groups::rows_of(rows@),
            found.wf(),
            forall|j: int|
                i <= j < rows@.len() ==> keys::row_key(#[trigger] shown[j], key_column as int)
                    is Some,
            found@.dom() == Set::new(
                |key: KeyView| key_from(shown, key_column as int, i as int, key),
            ),
            groups::rows_of(turned@).reverse() == newest_from(
                shown,
                key_column as int,
                i as nat,
            ),
        decreases i,
    {
        let at: usize = i - 1;
        assert(shown[at as int] == types::views(rows@[at as int]@));
        let key: PkKey = match PkKey::of_row(&rows[at], key_column) {
            Some(key) => key,
            None => {
                assert(keys::row_key(shown[at as int], key_column as int) is None);
                return Err(
                    keyless_row(&rows[at], key_column),
                );
            },
        };
        let ghost named = key@;
        let ghost before = groups::rows_of(turned@);
        let ghost known = found@.dom();
        let previous: Option<usize> = found.insert(key, 0);
        proof {
            assert(known.contains(named) == key_from(shown, key_column as int, i as int, named));
            assert forall|key: KeyView| #[trigger] found@.dom().contains(key) <==> key_from(
                shown,
                key_column as int,
                at as int,
                key,
            ) by {
                if key == named {
                    assert(keys::row_key(shown[at as int], key_column as int) == Some(key));
                } else if key_from(shown, key_column as int, at as int, key) {
                    let j = choose|j: int|
                        at <= j < shown.len() && keys::row_key(
                            #[trigger] shown[j],
                            key_column as int,
                        ) == Some(key);
                    assert(j != at);
                    assert(key_from(shown, key_column as int, i as int, key));
                    assert(known.contains(key));
                } else {
                    assert(!key_from(shown, key_column as int, i as int, key));
                    assert(!known.contains(key));
                }
            }
            assert(found@.dom() =~= Set::new(
                |key: KeyView| key_from(shown, key_column as int, at as int, key),
            ));
        }
        if previous.is_none() {
            turned.push(duplicate_values(rows[at].as_slice()));
            proof {
                let now = groups::rows_of(turned@);
                assert(now =~= before.push(shown[at as int]));
                assert(now.reverse() =~= seq![shown[at as int]] + before.reverse());
            }
        }
        i = at;
    }
    let ghost all = groups::rows_of(turned@);
    let mut newest: Vec<Vec<Value>> = Vec::new();
    let size: usize = turned.len();
    let mut k: usize = size;
    while k > 0
        invariant
            k <= size == turned@.len(),
            all == groups::rows_of(turned@),
            newest@.len() == size - k,
            forall|j: int|
                0 <= j < size - k ==> types::views((#[trigger] newest@[j])@) == all[size - 1 - j],
        decreases k,
    {
        newest.push(duplicate_values(turned[k - 1].as_slice()));
        k -= 1;
    }
    assert(groups::rows_of(newest@) =~= all.reverse());
    assert(found@.dom() =~= keys_of(shown, key_column as int));
    Ok((newest, found))
}

} // verus!
