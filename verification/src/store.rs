//! The top-level multi-tenant registry: database name to database, with
//! store-wide size accounting, delegating every query to the named
//! database and reporting an absent name as an explicit error.

use vstd::prelude::*;

use crate::agg::AggregateType;
use crate::chunk::Chunk;
use crate::column::{strs, Value};
use crate::database::{agg_query_ok, db_agg_rows, db_sel_rows, mk_aggq, sel_query_ok, Database};
use crate::error::Error;
use crate::row_group::Predicate;
use crate::scan::{agg_names, groups_inv, rows_view, str_in, strs_distinct, GroupedRow};
use crate::schema::{db_has_survivor, db_has_tag_key};

verus! {

/// One registered database.
pub struct StoreEntry {
    pub name: String,
    pub db: Database,
}

/// The execution engine's root: a registry of databases.
pub struct Store {
    pub entries: Vec<StoreEntry>,
    pub size: u64,
}

/// The sum of the databases' sizes.
pub open spec fn sum_db_sizes(entries: Seq<StoreEntry>) -> int
    decreases entries.len(),
{
    if entries.len() == 0 {
        0
    } else {
        sum_db_sizes(entries.drop_last()) + entries.last().db.size
    }
}

/// Whether a database named `n` is registered.
pub open spec fn has_db(entries: Seq<StoreEntry>, n: Seq<char>) -> bool {
    exists|i: int| 0 <= i < entries.len() && (#[trigger] entries[i].name@) == n
}

/// The index of the database named `n`.
pub open spec fn db_idx(entries: Seq<StoreEntry>, n: Seq<char>) -> int {
    choose|i: int| 0 <= i < entries.len() && (#[trigger] entries[i].name@) == n
}

/// Removing one entry debits exactly its database's size.
pub proof fn lemma_sum_db_remove(entries: Seq<StoreEntry>, i: int)
    requires
        0 <= i < entries.len(),
    ensures
        sum_db_sizes(entries.remove(i)) == sum_db_sizes(entries) - entries[i].db.size,
    decreases entries.len(),
{
    if i == entries.len() - 1 {
        assert(entries.remove(i) =~= entries.drop_last());
    } else {
        lemma_sum_db_remove(entries.drop_last(), i);
        assert(entries.remove(i).drop_last() =~= entries.drop_last().remove(i));
        assert(entries.remove(i).last() == entries.last());
    }
}

pub proof fn lemma_sum_db_nonneg(entries: Seq<StoreEntry>)
    ensures
        sum_db_sizes(entries) >= 0,
    decreases entries.len(),
{
    if entries.len() > 0 {
        lemma_sum_db_nonneg(entries.drop_last());
    }
}

/// Updating one entry's database changes the total by the size change.
pub proof fn lemma_sum_db_update(entries: Seq<StoreEntry>, i: int, e2: StoreEntry)
    requires
        0 <= i < entries.len(),
    ensures
        sum_db_sizes(entries.update(i, e2)) == sum_db_sizes(entries) - entries[i].db.size
            + e2.db.size,
    decreases entries.len(),
{
    if i == entries.len() - 1 {
        assert(entries.update(i, e2).drop_last() =~= entries.drop_last());
        assert(entries.update(i, e2).last() == e2);
    } else {
        lemma_sum_db_update(entries.drop_last(), i, e2);
        assert(entries.update(i, e2).drop_last() =~= entries.drop_last().update(i, e2));
        assert(entries.update(i, e2).last() == entries.last());
    }
}

impl Store {
    /// Well-formedness: distinct database names, every database
    /// well-formed, and the store total equal to the sum of the
    /// databases' sizes.
    pub open spec fn wf(&self) -> bool {
        &&& forall|i: int| 0 <= i < self.entries@.len() ==> (#[trigger] self.entries@[i].db).wf()
        &&& forall|i1: int, i2: int|
            0 <= i1 < i2 < self.entries@.len() ==> self.entries@[i1].name@
                != self.entries@[i2].name@
        &&& self.size as int == sum_db_sizes(self.entries@)
    }

    /// An empty store.
    pub fn new() -> (r: Store)
        ensures
            r.wf(),
            r.entries@.len() == 0,
            r.size == 0,
    {
        Store { entries: Vec::new(), size: 0 }
    }

    /// The total size, in accounting bytes, across all databases.
    pub fn size(&self) -> (r: u64)
        ensures
            r == self.size,
            self.wf() ==> r as int == sum_db_sizes(self.entries@),
    {
        self.size
    }

    /// Finds the index of the database named `id`.
    fn find_db(&self, id: &String) -> (r: Option<usize>)
        ensures
            match r {
                Option::Some(i) => i < self.entries@.len() && self.entries@[i as int].name@ == id@,
                Option::None => !has_db(self.entries@, id@),
            },
    {
        let n = self.entries.len();
        let mut i: usize = 0;
        while i < n
            invariant
                n == self.entries@.len(),
                i <= n,
                forall|p: int| 0 <= p < i ==> (#[trigger] self.entries@[p].name@) != id@,
            decreases n - i,
        {
            if self.entries[i].name == *id {
                return Option::Some(i);
            }
            i += 1;
        }
        Option::None
    }

    /// Registers a database under `id`, crediting its size. A name
    /// already taken is rejected, as is an accounting overflow.
    pub fn add_database(&mut self, id: String, database: Database) -> (r: Result<(), Error>)
        requires
            old(self).wf(),
            database.wf(),
        ensures
            final(self).wf(),
            match r {
                Result::Ok(()) => {
                    &&& final(self).entries@.len() == old(self).entries@.len() + 1
                    &&& final(self).entries@.last().name@ == id@
                    &&& final(self).entries@.last().db == database
                    &&& forall|i: int|
                        0 <= i < old(self).entries@.len() ==> final(self).entries@[i] == old(
                            self,
                        ).entries@[i]
                    &&& final(self).size as int == old(self).size as int + database.size
                    &&& !has_db(old(self).entries@, id@)
                },
                Result::Err(e) => {
                    &&& *final(self) == *old(self)
                    &&& (e == Error::DuplicateKey || e == Error::SizeOverflow)
                    &&& e == Error::DuplicateKey ==> has_db(old(self).entries@, id@)
                    &&& e == Error::SizeOverflow ==> old(self).size as int + database.size
                        > u64::MAX
                },
            },
    {
        match self.find_db(&id) {
            Option::Some(_) => {
                return Result::Err(Error::DuplicateKey);
            },
            Option::None => {},
        }
        let size2 = match self.size.checked_add(database.size()) {
            Option::Some(s) => s,
            Option::None => {
                return Result::Err(Error::SizeOverflow);
            },
        };
        let ghost e0 = self.entries@;
        self.size = size2;
        self.entries.push(StoreEntry { name: id, db: database });
        proof {
            assert(self.entries@.drop_last() =~= e0);
            let el = self.entries@;
            assert forall|i1: int, i2: int| 0 <= i1 < i2 < el.len() implies el[i1].name@
                != el[i2].name@ by {
                if i2 == el.len() - 1 {
                    assert(el[i1] == e0[i1]);
                } else {
                    assert(el[i1] == e0[i1]);
                    assert(el[i2] == e0[i2]);
                }
            }
            assert forall|i: int| 0 <= i < el.len() implies (#[trigger] el[i].db).wf() by {
                if i < el.len() - 1 {
                    assert(el[i] == e0[i]);
                }
            }
        }
        Result::Ok(())
    }

    /// Removes the database under `id`, debiting its size; an absent
    /// name is an error.
    pub fn remove_database(&mut self, id: String) -> (r: Result<(), Error>)
        requires
            old(self).wf(),
        ensures
            final(self).wf(),
            match r {
                Result::Ok(()) => {
                    &&& exists|i: int|
                        0 <= i < old(self).entries@.len() && (#[trigger] old(
                            self,
                        ).entries@[i].name@) == id@ && final(self).entries@ == old(
                            self,
                        ).entries@.remove(i) && final(self).size as int == old(self).size as int
                            - old(self).entries@[i].db.size
                },
                Result::Err(e) => {
                    &&& *final(self) == *old(self)
                    &&& e == Error::DatabaseNotFound
                    &&& !has_db(old(self).entries@, id@)
                },
            },
    {
        match self.find_db(&id) {
            Option::None => Result::Err(Error::DatabaseNotFound),
            Option::Some(i) => {
                proof {
                    lemma_sum_db_remove(old(self).entries@, i as int);
                    lemma_sum_db_nonneg(old(self).entries@.remove(i as int));
                    old(self).entries@.remove_ensures(i as int);
                }
                let removed = self.entries.remove(i);
                let new_size = self.size - removed.db.size;
                self.size = new_size;
                proof {
                    let oldc = old(self).entries@;
                    assert forall|c1: int, c2: int|
                        0 <= c1 < c2 < self.entries@.len() implies self.entries@[c1].name@
                        != self.entries@[c2].name@ by {
                        let o1 = if c1 < i as int {
                            c1
                        } else {
                            c1 + 1
                        };
                        let o2 = if c2 < i as int {
                            c2
                        } else {
                            c2 + 1
                        };
                        assert(self.entries@[c1] == oldc[o1]);
                        assert(self.entries@[c2] == oldc[o2]);
                    }
                    assert forall|p: int| 0 <= p < self.entries@.len() implies (
                    #[trigger] self.entries@[p].db).wf() by {
                        let o = if p < i as int {
                            p
                        } else {
                            p + 1
                        };
                        assert(self.entries@[p] == oldc[o]);
                    }
                    assert(0 <= i < oldc.len() && oldc[i as int].name@ == id@ && self.entries@
                        == oldc.remove(i as int) && self.size as int == old(self).size as int
                        - oldc[i as int].db.size);
                }
                Result::Ok(())
            },
        }
    }

    /// Adds a chunk to the named database, keeping both levels of size
    /// accounting consistent.
    pub fn add_chunk(&mut self, database_id: &str, chunk: Chunk) -> (r: Result<(), Error>)
        requires
            old(self).wf(),
            chunk.wf(),
        ensures
            final(self).wf(),
            match r {
                Result::Ok(()) => {
                    &&& has_db(old(self).entries@, database_id@)
                    &&& final(self).entries@.len() == old(self).entries@.len()
                    &&& ({
                        let i = db_idx(old(self).entries@, database_id@);
                        final(self).entries@[i].db.chunks@ == old(self).entries@[i].db.chunks@.push(
                            chunk,
                        ) && final(self).entries@[i].db.size as int == old(
                            self,
                        ).entries@[i].db.size as int + chunk.size
                    })
                    &&& final(self).size as int == old(self).size as int + chunk.size
                    &&& forall|j: int|
                        0 <= j < old(self).entries@.len() && (#[trigger] old(
                            self,
                        ).entries@[j].name@) != database_id@ ==> final(self).entries@[j] == old(
                            self,
                        ).entries@[j]
                },
                Result::Err(e) => {
                    &&& final(self).entries@ == old(self).entries@
                    &&& final(self).size == old(self).size
                    &&& (e == Error::DatabaseNotFound || e == Error::DuplicateKey || e
                        == Error::SizeOverflow)
                    &&& e == Error::DatabaseNotFound <==> !has_db(old(self).entries@, database_id@)
                    &&& e == Error::DuplicateKey ==> ({
                        let i = db_idx(old(self).entries@, database_id@);
                        exists|c: int|
                            0 <= c < old(self).entries@[i].db.chunks@.len() && (#[trigger] old(
                                self,
                            ).entries@[i].db.chunks@[c].key@) == chunk.key@
                    })
                    &&& e == Error::SizeOverflow ==> old(self).size as int + chunk.size > u64::MAX
                },
            },
    {
        let id: String = database_id.to_owned();
        let i = match self.find_db(&id) {
            Option::None => {
                return Result::Err(Error::DatabaseNotFound);
            },
            Option::Some(i) => i,
        };
        let csize = chunk.size;
        let pre_ns = match self.size.checked_add(csize) {
            Option::Some(s) => s,
            Option::None => {
                return Result::Err(Error::SizeOverflow);
            },
        };
        let ghost e0 = self.entries@;
        let entry = &mut self.entries[i];
        let ghost name0 = entry.name@;
        let res = entry.db.add_chunk(chunk);
        match res {
            Result::Ok(()) => {
                self.size = pre_ns;
                proof {
                    let el = self.entries@;
                    assert(el == e0.update(i as int, el[i as int]));
                    assert(el[i as int].name@ == e0[i as int].name@);
                    assert(el[i as int].db.size as int == e0[i as int].db.size as int + csize);
                    lemma_sum_db_update(e0, i as int, el[i as int]);
                    assert forall|i1: int, i2: int| 0 <= i1 < i2 < el.len() implies el[i1].name@
                        != el[i2].name@ by {
                        assert(el[i1].name@ == e0[i1].name@);
                        assert(el[i2].name@ == e0[i2].name@);
                    }
                    assert forall|p: int| 0 <= p < el.len() implies (#[trigger] el[p].db).wf() by {
                        if p != i as int {
                            assert(el[p] == e0[p]);
                        }
                    }
                    assert(has_db(e0, database_id@)) by {
                        assert(e0[i as int].name@ == database_id@);
                    }
                    lemma_unique_db(e0, db_idx(e0, database_id@), i as int);
                    assert forall|j: int|
                        0 <= j < e0.len() && j != i as int implies self.entries@[j] == e0[j] by {}
                }
                Result::Ok(())
            },
            Result::Err(e) => {
                proof {
                    assert(self.entries@[i as int] == e0[i as int]);
                    assert(self.entries@ =~= e0);
                    assert(has_db(e0, database_id@)) by {
                        assert(e0[i as int].name@ == database_id@);
                    }
                    lemma_unique_db(e0, db_idx(e0, database_id@), i as int);
                    if e == Error::SizeOverflow {
                        // The database's own accounting cannot overflow
                        // below the store's, which was checked first.
                        lemma_sum_db_elem(e0, i as int);
                        assert(false);
                    }
                }
                Result::Err(e)
            },
        }
    }
}

/// The total is at least any one database's size.
pub proof fn lemma_sum_db_elem(entries: Seq<StoreEntry>, i: int)
    requires
        0 <= i < entries.len(),
    ensures
        sum_db_sizes(entries) >= entries[i].db.size,
    decreases entries.len(),
{
    lemma_sum_db_nonneg(entries.drop_last());
    if i < entries.len() - 1 {
        assert(entries.drop_last()[i] == entries[i]);
        lemma_sum_db_elem(entries.drop_last(), i);
    }
}

/// The size invariant: in a well-formed store the running total equals
/// the sum of the databases' sizes, and each database's total equals the
/// sum of its chunks' sizes. Every mutation ensures well-formedness, so
/// the invariant holds after any sequence of add and remove operations.
pub proof fn lemma_size_accounting(s: Store)
    requires
        s.wf(),
    ensures
        s.size as int == sum_db_sizes(s.entries@),
        forall|i: int|
            0 <= i < s.entries@.len() ==> (#[trigger] s.entries@[i].db).size as int
                == crate::database::sum_sizes(s.entries@[i].db.chunks@),
{
}

/// In a store with distinct names, two entries with one name are one
/// entry.
pub proof fn lemma_unique_db(entries: Seq<StoreEntry>, i1: int, i2: int)
    requires
        forall|a: int, b: int| 0 <= a < b < entries.len() ==> entries[a].name@ != entries[b].name@,
        0 <= i1 < entries.len(),
        0 <= i2 < entries.len(),
        entries[i1].name@ == entries[i2].name@,
    ensures
        i1 == i2,
{
    if i1 < i2 {
        assert(entries[i1].name@ != entries[i2].name@);
    } else if i2 < i1 {
        assert(entries[i2].name@ != entries[i1].name@);
    }
}

impl Store {
    /// Delegates a selection to the named database; an absent name is an
    /// explicit error, distinct from a present database matching nothing.
    pub fn select(
        &self,
        database_name: &str,
        table_name: &str,
        time_range: (i64, i64),
        predicates: &Vec<Predicate>,
        select_columns: &Vec<String>,
    ) -> (r: Result<Vec<Vec<Value>>, Error>)
        requires
            self.wf(),
        ensures
            match r {
                Result::Ok(rows) => has_db(self.entries@, database_name@) && ({
                    let d = self.entries@[db_idx(self.entries@, database_name@)].db;
                    sel_query_ok(d.chunks@, table_name@, predicates@, strs(select_columns@))
                        && rows_view(rows@) == db_sel_rows(
                        d.chunks@,
                        table_name@,
                        predicates@,
                        time_range.0,
                        time_range.1,
                        strs(select_columns@),
                    )
                }),
                Result::Err(e) => {
                    &&& (e == Error::DatabaseNotFound || e == Error::SchemaMismatch)
                    &&& (e == Error::DatabaseNotFound <==> !has_db(
                        self.entries@,
                        database_name@,
                    ))
                    &&& e == Error::SchemaMismatch ==> !sel_query_ok(
                        self.entries@[db_idx(self.entries@, database_name@)].db.chunks@,
                        table_name@,
                        predicates@,
                        strs(select_columns@),
                    )
                },
            },
    {
        let id: String = database_name.to_owned();
        match self.find_db(&id) {
            Option::None => Result::Err(Error::DatabaseNotFound),
            Option::Some(i) => {
                proof {
                    assert(has_db(self.entries@, database_name@));
                    lemma_unique_db(
                        self.entries@,
                        db_idx(self.entries@, database_name@),
                        i as int,
                    );
                }
                self.entries[i].db.select(table_name, time_range, predicates, select_columns)
            },
        }
    }

    /// Delegates a grouped aggregation to the named database.
    pub fn aggregate(
        &self,
        database_name: &str,
        table_name: &str,
        time_range: (i64, i64),
        predicates: &Vec<Predicate>,
        group_columns: &Vec<String>,
        aggregates: &Vec<(String, AggregateType)>,
    ) -> (r: Result<Vec<GroupedRow>, Error>)
        requires
            self.wf(),
        ensures
            match r {
                Result::Ok(rows) => has_db(self.entries@, database_name@) && ({
                    let d = self.entries@[db_idx(self.entries@, database_name@)].db;
                    agg_query_ok(
                        d.chunks@,
                        table_name@,
                        predicates@,
                        strs(group_columns@),
                        aggregates@,
                    ) && groups_inv(
                        rows@,
                        db_agg_rows(
                            d.chunks@,
                            table_name@,
                            mk_aggq(
                                predicates@,
                                time_range.0,
                                time_range.1,
                                strs(group_columns@),
                                agg_names(aggregates@),
                                0,
                            ),
                        ),
                        aggregates@,
                    ) && crate::order::rows_sorted(rows@)
                }),
                Result::Err(e) => {
                    &&& (e == Error::DatabaseNotFound || e == Error::SchemaMismatch)
                    &&& (e == Error::DatabaseNotFound <==> !has_db(
                        self.entries@,
                        database_name@,
                    ))
                    &&& e == Error::SchemaMismatch ==> !agg_query_ok(
                        self.entries@[db_idx(self.entries@, database_name@)].db.chunks@,
                        table_name@,
                        predicates@,
                        strs(group_columns@),
                        aggregates@,
                    )
                },
            },
    {
        let id: String = database_name.to_owned();
        match self.find_db(&id) {
            Option::None => Result::Err(Error::DatabaseNotFound),
            Option::Some(i) => {
                proof {
                    assert(has_db(self.entries@, database_name@));
                    lemma_unique_db(
                        self.entries@,
                        db_idx(self.entries@, database_name@),
                        i as int,
                    );
                }
                self.entries[i].db.aggregate(
                    table_name,
                    time_range,
                    predicates,
                    group_columns,
                    aggregates,
                )
            },
        }
    }

    /// Delegates a windowed aggregation to the named database.
    pub fn aggregate_window(
        &self,
        database_name: &str,
        table_name: &str,
        time_range: (i64, i64),
        predicates: &Vec<Predicate>,
        group_columns: &Vec<String>,
        aggregates: &Vec<(String, AggregateType)>,
        window: i64,
    ) -> (r: Result<Vec<GroupedRow>, Error>)
        requires
            self.wf(),
        ensures
            match r {
                Result::Ok(rows) => has_db(self.entries@, database_name@) && window > 0 && ({
                    let d = self.entries@[db_idx(self.entries@, database_name@)].db;
                    agg_query_ok(
                        d.chunks@,
                        table_name@,
                        predicates@,
                        strs(group_columns@),
                        aggregates@,
                    ) && groups_inv(
                        rows@,
                        db_agg_rows(
                            d.chunks@,
                            table_name@,
                            mk_aggq(
                                predicates@,
                                time_range.0,
                                time_range.1,
                                strs(group_columns@),
                                agg_names(aggregates@),
                                window as int,
                            ),
                        ),
                        aggregates@,
                    ) && crate::order::rows_sorted(rows@)
                }),
                Result::Err(e) => {
                    &&& (e == Error::DatabaseNotFound || e == Error::InvalidArgument || e
                        == Error::SchemaMismatch)
                    &&& (e == Error::DatabaseNotFound <==> !has_db(
                        self.entries@,
                        database_name@,
                    ))
                    &&& e == Error::InvalidArgument ==> window <= 0
                    &&& e == Error::SchemaMismatch ==> window > 0 && !agg_query_ok(
                        self.entries@[db_idx(self.entries@, database_name@)].db.chunks@,
                        table_name@,
                        predicates@,
                        strs(group_columns@),
                        aggregates@,
                    )
                },
            },
    {
        let id: String = database_name.to_owned();
        match self.find_db(&id) {
            Option::None => Result::Err(Error::DatabaseNotFound),
            Option::Some(i) => {
                proof {
                    assert(has_db(self.entries@, database_name@));
                    lemma_unique_db(
                        self.entries@,
                        db_idx(self.entries@, database_name@),
                        i as int,
                    );
                }
                self.entries[i].db.aggregate_window(
                    table_name,
                    time_range,
                    predicates,
                    group_columns,
                    aggregates,
                    window,
                )
            },
        }
    }

    /// The distinct table names with matching rows in the named
    /// database.
    pub fn table_names(
        &self,
        database_name: &str,
        time_range: (i64, i64),
        predicates: &Vec<Predicate>,
    ) -> (r: Result<Vec<String>, Error>)
        requires
            self.wf(),
        ensures
            match r {
                Result::Ok(names) => has_db(self.entries@, database_name@) && ({
                    let d = self.entries@[db_idx(self.entries@, database_name@)].db;
                    strs_distinct(names@) && forall|n: Seq<char>|
                        #[trigger] str_in(names@, n) <==> db_has_survivor(
                            d.chunks@,
                            n,
                            predicates@,
                            time_range.0,
                            time_range.1,
                        )
                }),
                Result::Err(e) => e == Error::DatabaseNotFound && !has_db(
                    self.entries@,
                    database_name@,
                ),
            },
    {
        let id: String = database_name.to_owned();
        match self.find_db(&id) {
            Option::None => Result::Err(Error::DatabaseNotFound),
            Option::Some(i) => {
                proof {
                    assert(has_db(self.entries@, database_name@));
                    lemma_unique_db(
                        self.entries@,
                        db_idx(self.entries@, database_name@),
                        i as int,
                    );
                }
                Result::Ok(self.entries[i].db.table_names(time_range, predicates))
            },
        }
    }

    /// The distinct tag keys of the named database's table.
    pub fn tag_keys(
        &self,
        database_name: &str,
        table_name: &str,
        time_range: (i64, i64),
        predicates: &Vec<Predicate>,
    ) -> (r: Result<Vec<String>, Error>)
        requires
            self.wf(),
        ensures
            match r {
                Result::Ok(keys) => has_db(self.entries@, database_name@) && ({
                    let d = self.entries@[db_idx(self.entries@, database_name@)].db;
                    strs_distinct(keys@) && forall|k: Seq<char>|
                        #[trigger] str_in(keys@, k) <==> db_has_tag_key(
                            d.chunks@,
                            table_name@,
                            predicates@,
                            time_range.0,
                            time_range.1,
                            k,
                        )
                }),
                Result::Err(e) => {
                    &&& (e == Error::DatabaseNotFound || e == Error::SchemaMismatch)
                    &&& (e == Error::DatabaseNotFound <==> !has_db(
                        self.entries@,
                        database_name@,
                    ))
                    &&& e == Error::SchemaMismatch ==> !sel_query_ok(
                        self.entries@[db_idx(self.entries@, database_name@)].db.chunks@,
                        table_name@,
                        predicates@,
                        Seq::empty(),
                    )
                },
            },
    {
        let id: String = database_name.to_owned();
        match self.find_db(&id) {
            Option::None => Result::Err(Error::DatabaseNotFound),
            Option::Some(i) => {
                proof {
                    assert(has_db(self.entries@, database_name@));
                    lemma_unique_db(
                        self.entries@,
                        db_idx(self.entries@, database_name@),
                        i as int,
                    );
                }
                self.entries[i].db.tag_keys(table_name, time_range, predicates)
            },
        }
    }

    /// The distinct values of the requested tag keys in the named
    /// database's table.
    pub fn tag_values(
        &self,
        database_name: &str,
        table_name: &str,
        time_range: (i64, i64),
        predicates: &Vec<Predicate>,
        tag_keys: &Vec<String>,
    ) -> (r: Result<Vec<(String, Vec<String>)>, Error>)
        requires
            self.wf(),
        ensures
            match r {
                Result::Ok(pairs) => has_db(self.entries@, database_name@) && ({
                    let d = self.entries@[db_idx(self.entries@, database_name@)].db;
                    d.tag_values_post(
                        table_name@,
                        predicates@,
                        time_range.0,
                        time_range.1,
                        tag_keys@,
                        pairs@,
                    )
                }),
                Result::Err(e) => {
                    &&& (e == Error::DatabaseNotFound || e == Error::SchemaMismatch)
                    &&& (e == Error::DatabaseNotFound <==> !has_db(
                        self.entries@,
                        database_name@,
                    ))
                    &&& e == Error::SchemaMismatch ==> !sel_query_ok(
                        self.entries@[db_idx(self.entries@, database_name@)].db.chunks@,
                        table_name@,
                        predicates@,
                        Seq::empty(),
                    )
                },
            },
    {
        let id: String = database_name.to_owned();
        match self.find_db(&id) {
            Option::None => Result::Err(Error::DatabaseNotFound),
            Option::Some(i) => {
                proof {
                    assert(has_db(self.entries@, database_name@));
                    lemma_unique_db(
                        self.entries@,
                        db_idx(self.entries@, database_name@),
                        i as int,
                    );
                }
                self.entries[i].db.tag_values(table_name, time_range, predicates, tag_keys)
            },
        }
    }
}

} // verus!
