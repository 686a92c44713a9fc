//! The password vault's categories and entries, and the migration that
//! brings a vault to its current shape: missing entry columns are added,
//! legacy categories are dropped with no entry left pointing at one, and the
//! four core categories are seeded once.
use vstd::prelude::*;
use crate::chars::{chars_of, copy_opt, id_below};
use crate::cardbox::{contains_chars, contains_seq};
use crate::knowledge::{contains_folded, fold, fold_chars};
use crate::error::StoreError;

verus! {

/// A category of vault entries.
pub struct PasswordCategory {
    pub id: Option<i64>,
    pub name: String,
    pub icon: String,
    pub color: Option<String>,
    pub created_at: String,
}

/// A vault entry; the password is stored encrypted.
pub struct PasswordEntry {
    pub id: Option<i64>,
    pub title: String,
    pub username: Option<String>,
    pub password_encrypted: String,
    pub url: Option<String>,
    pub notes: Option<String>,
    pub ip: Option<String>,
    pub db_type: Option<String>,
    pub db_ip: Option<String>,
    pub db_username: Option<String>,
    pub app_name: Option<String>,
    pub category_id: Option<i64>,
    pub tags: Option<String>,
    pub is_favorite: bool,
    pub last_used_at: Option<String>,
    pub created_at: String,
    pub updated_at: String,
}

/// Categories, entries, and the columns the entry table has.
pub struct PasswordStore {
    categories: Vec<PasswordCategory>,
    entries: Vec<PasswordEntry>,
    entry_columns: Vec<String>,
    next_category_id: i64,
    next_entry_id: i64,
}

/// The names of the categories that the four core categories replaced.
pub open spec fn is_legacy_name(n: Seq<char>) -> bool {
    n == "邮箱"@ || n == "社交媒体"@ || n == "金融理财"@ || n == "其他"@ || n == "网站账号"@
}

/// The names of the four core categories.
pub open spec fn core_names() -> Seq<Seq<char>> {
    seq!["网站"@, "应用软件"@, "服务器"@, "数据库"@]
}

/// The columns that entries gained after the table was first made.
pub open spec fn added_columns() -> Seq<Seq<char>> {
    seq!["ip"@, "db_type"@, "db_ip"@, "db_username"@, "app_name"@]
}

pub open spec fn has_category_named(cs: Seq<PasswordCategory>, n: Seq<char>) -> bool {
    exists|j: int| 0 <= j < cs.len() && cs[j].name@ == n
}

pub open spec fn has_category(cs: Seq<PasswordCategory>, id: i64) -> bool {
    exists|j: int| 0 <= j < cs.len() && cs[j].id == Some(id)
}

pub open spec fn has_column(cols: Seq<String>, n: Seq<char>) -> bool {
    exists|j: int| 0 <= j < cols.len() && cols[j]@ == n
}

/// The category an entry refers to, if any, exists.
pub open spec fn category_ok(cs: Seq<PasswordCategory>, e: PasswordEntry) -> bool {
    match e.category_id {
        Some(c) => has_category(cs, c),
        None => true,
    }
}

/// `a` equals `b` but for its category, which is cleared.
pub open spec fn uncategorised(a: PasswordEntry, b: PasswordEntry) -> bool {
    a == (PasswordEntry { category_id: None, ..b })
}

fn copy_category(c: &PasswordCategory) -> (r: PasswordCategory)
    ensures
        r == *c,
{
    PasswordCategory {
        id: c.id,
        name: c.name.clone(),
        icon: c.icon.clone(),
        color: copy_opt(&c.color),
        created_at: c.created_at.clone(),
    }
}

/// A copy of `e` with category `category_id`.
fn entry_with_category(e: &PasswordEntry, category_id: Option<i64>) -> (r: PasswordEntry)
    ensures
        r == (PasswordEntry { category_id: category_id, ..*e }),
{
    PasswordEntry {
        id: e.id,
        title: e.title.clone(),
        username: copy_opt(&e.username),
        password_encrypted: e.password_encrypted.clone(),
        url: copy_opt(&e.url),
        notes: copy_opt(&e.notes),
        ip: copy_opt(&e.ip),
        db_type: copy_opt(&e.db_type),
        db_ip: copy_opt(&e.db_ip),
        db_username: copy_opt(&e.db_username),
        app_name: copy_opt(&e.app_name),
        category_id,
        tags: copy_opt(&e.tags),
        is_favorite: e.is_favorite,
        last_used_at: copy_opt(&e.last_used_at),
        created_at: e.created_at.clone(),
        updated_at: e.updated_at.clone(),
    }
}

pub open spec fn opt_found(o: Option<String>, q: Seq<char>) -> bool {
    match o {
        Some(s) => contains_folded(s@, q),
        None => false,
    }
}

/// `q` occurs, ignoring ASCII case, in the title, user name, address, notes,
/// server address, database type, database address, database user or
/// application name of `e`.
pub open spec fn entry_found(e: PasswordEntry, q: Seq<char>) -> bool {
    contains_folded(e.title@, q) || opt_found(e.username, q) || opt_found(e.url, q) || opt_found(e.notes, q)
        || opt_found(e.ip, q) || opt_found(e.db_type, q) || opt_found(e.db_ip, q) || opt_found(e.db_username, q)
        || opt_found(e.app_name, q)
}

/// `q` (already folded) occurs in the folded text of `o`, if any.
fn opt_found_exec(o: &Option<String>, q: &Vec<char>) -> (r: bool)
    ensures
        r == match *o {
            Some(s) => contains_seq(fold(s@), q@),
            None => false,
        },
{
    match o {
        Some(s) => {
            let c = chars_of(s.as_str());
            let f = fold_chars(&c);
            contains_chars(&f, q)
        },
        None => false,
    }
}

/// The vault has every added column, no legacy category and every core
/// category.
pub open spec fn migrated(s: PasswordStore) -> bool {
    &&& forall|k: int| 0 <= k < added_columns().len() ==> has_column(s.columns(), #[trigger] added_columns()[k])
    &&& forall|i: int| 0 <= i < s.categories().len() ==> !is_legacy_name(#[trigger] s.categories()[i].name@)
    &&& forall|k: int| 0 <= k < core_names().len() ==> has_category_named(s.categories(), #[trigger] core_names()[k])
}

/// One run of the migration took the vault from `before` to `after`.
pub open spec fn migration_step(before: PasswordStore, after: PasswordStore) -> bool {
    &&& after.wf()
    &&& migrated(after)
    &&& migrated(before) ==> after == before
    &&& forall|n: Seq<char>|
        has_column(after.columns(), n) <==> has_column(before.columns(), n) || added_columns().contains(n)
    &&& (columns_distinct(before.columns()) ==> columns_distinct(after.columns()))
    &&& forall|c: PasswordCategory|
        #[trigger] after.categories().contains(c) ==> before.categories().contains(c) || core_names().contains(c.name@)
    &&& after.entries().len() == before.entries().len()
    &&& if exists|i: int| 0 <= i < before.categories().len() && is_legacy_name(#[trigger] before.categories()[i].name@) {
        &&& after.categories().len() == core_names().len()
        &&& forall|a: int| 0 <= a < after.entries().len() ==> uncategorised(#[trigger] after.entries()[a], before.entries()[a])
    } else {
        &&& after.entries() == before.entries()
        &&& forall|c: PasswordCategory| before.categories().contains(c) ==> #[trigger] after.categories().contains(c)
    }
}

/// No column name occurs twice.
pub open spec fn columns_distinct(cols: Seq<String>) -> bool {
    forall|a: int, b: int| 0 <= a < b < cols.len() ==> cols[a]@ != cols[b]@
}

/// Every category of `cs` is one of `base` or carries one of `names`.
pub open spec fn from_base(cs: Seq<PasswordCategory>, base: Seq<PasswordCategory>, names: Set<Seq<char>>) -> bool {
    forall|a: int| 0 <= a < cs.len() ==> base.contains(#[trigger] cs[a]) || names.contains(cs[a].name@)
}

proof fn lemma_from_step(
    prev: Seq<PasswordCategory>,
    next: Seq<PasswordCategory>,
    base: Seq<PasswordCategory>,
    names: Set<Seq<char>>,
    n: Seq<char>,
)
    requires
        from_base(prev, base, names),
        forall|a: int| 0 <= a < next.len() ==> prev.contains(#[trigger] next[a]) || next[a].name@ == n,
    ensures
        from_base(next, base, names.insert(n)),
{
    assert forall|a: int| 0 <= a < next.len() implies base.contains(#[trigger] next[a]) || names.insert(n).contains(next[a].name@) by {
        if prev.contains(next[a]) && next[a].name@ != n {
            let j = choose|j: int| 0 <= j < prev.len() && prev[j] == next[a];
            assert(base.contains(prev[j]) || names.contains(prev[j].name@));
        }
    }
}

impl PasswordStore {
    pub closed spec fn categories(&self) -> Seq<PasswordCategory> {
        self.categories@
    }

    pub closed spec fn entries(&self) -> Seq<PasswordEntry> {
        self.entries@
    }

    pub closed spec fn columns(&self) -> Seq<String> {
        self.entry_columns@
    }

    /// The identity the next category gets.
    pub closed spec fn next_category_id(&self) -> i64 {
        self.next_category_id
    }

    /// The identity the next entry gets.
    pub closed spec fn next_entry_id(&self) -> i64 {
        self.next_entry_id
    }

    /// Category names and identities are unique and below the next identity;
    /// entries have unique identities below the next one and refer only to
    /// existing categories.
    pub closed spec fn wf(&self) -> bool {
        &&& self.next_category_id >= 1
        &&& self.next_entry_id >= 1
        &&& forall|i: int| 0 <= i < self.categories@.len() ==> id_below(#[trigger] self.categories@[i].id, self.next_category_id)
        &&& forall|i: int, j: int|
            0 <= i < j < self.categories@.len() ==> self.categories@[i].id != self.categories@[j].id
                && self.categories@[i].name@ != self.categories@[j].name@
        &&& forall|i: int| 0 <= i < self.entries@.len() ==> id_below(#[trigger] self.entries@[i].id, self.next_entry_id)
        &&& forall|i: int, j: int| 0 <= i < j < self.entries@.len() ==> self.entries@[i].id != self.entries@[j].id
        &&& forall|i: int| 0 <= i < self.entries@.len() ==> category_ok(self.categories@, #[trigger] self.entries@[i])
    }

    /// A vault whose entry table has the columns `entry_columns` and which
    /// holds no category and no entry yet.
    pub fn new(entry_columns: Vec<String>) -> (r: PasswordStore)
        ensures
            r.wf(),
            r.categories().len() == 0,
            r.entries().len() == 0,
            r.columns() == entry_columns@,
    {
        PasswordStore {
            categories: Vec::new(),
            entries: Vec::new(),
            entry_columns,
            next_category_id: 1,
            next_entry_id: 1,
        }
    }

    fn find_category_named(&self, name: &str) -> (r: Option<usize>)
        ensures
            r is None <==> !has_category_named(self.categories@, name@),
            r matches Some(k) ==> k < self.categories@.len() && self.categories@[k as int].name@ == name@,
    {
        let key = name.to_owned();
        let mut k: usize = 0;
        while k < self.categories.len()
            invariant
                k <= self.categories@.len(),
                key@ == name@,
                forall|j: int| 0 <= j < k ==> self.categories@[j].name@ != name@,
            decreases self.categories@.len() - k,
        {
            if self.categories[k].name == key {
                return Some(k);
            }
            k = k + 1;
        }
        None
    }

    fn find_category(&self, id: i64) -> (r: Option<usize>)
        ensures
            r is None <==> !has_category(self.categories@, id),
            r matches Some(k) ==> k < self.categories@.len() && self.categories@[k as int].id == Some(id),
    {
        let mut k: usize = 0;
        while k < self.categories.len()
            invariant
                k <= self.categories@.len(),
                forall|j: int| 0 <= j < k ==> self.categories@[j].id != Some(id),
            decreases self.categories@.len() - k,
        {
            if self.categories[k].id == Some(id) {
                return Some(k);
            }
            k = k + 1;
        }
        None
    }

    /// Adds a category named `name` at time `now`; names are unique.
    pub fn create_password_category(&mut self, name: String, icon: String, color: Option<String>, now: String) -> (r:
        Result<i64, StoreError>)
        requires
            old(self).wf(),
        ensures
            !has_category_named(old(self).categories(), name@) ==> (r is Ok <==> old(self).next_category_id() < i64::MAX),
            final(self).wf(),
            has_category_named(old(self).categories(), name@) ==> r == Err::<i64, StoreError>(StoreError::DuplicateId),
            r is Err ==> *final(self) == *old(self),
            r matches Ok(id) ==> {
                &&& !has_category(old(self).categories(), id)
                &&& final(self).categories() == old(self).categories().push(
                    PasswordCategory { id: Some(id), name: name, icon: icon, color: color, created_at: now },
                )
                &&& final(self).entries() == old(self).entries()
                &&& final(self).columns() == old(self).columns()
            },
    {
        if self.find_category_named(name.as_str()).is_some() {
            return Err(StoreError::DuplicateId);
        }
        if self.next_category_id == i64::MAX {
            return Err(StoreError::IdsExhausted);
        }
        let id = self.next_category_id;
        let ghost c0 = self.categories@;
        self.categories.push(PasswordCategory { id: Some(id), name, icon, color, created_at: now });
        self.next_category_id = id + 1;
        proof {
            let cs = self.categories@;
            assert forall|a: int| 0 <= a < self.entries@.len() implies category_ok(cs, #[trigger] self.entries@[a]) by {
                assert(category_ok(c0, self.entries@[a]));
                if let Some(c) = self.entries@[a].category_id {
                    let j = choose|j: int| 0 <= j < c0.len() && c0[j].id == Some(c);
                    assert(cs[j] == c0[j]);
                }
            }
            assert forall|a: int, b: int| 0 <= a < b < cs.len() implies cs[a].id != cs[b].id && cs[a].name@ != cs[b].name@ by {
                if b == cs.len() - 1 {
                    assert(id_below(c0[a].id, id));
                    assert(c0[a].name@ != cs[b].name@);
                }
            }
            assert(!has_category(c0, id)) by {
                if has_category(c0, id) {
                    let j = choose|j: int| 0 <= j < c0.len() && c0[j].id == Some(id);
                    assert(id_below(c0[j].id, id));
                }
            }
        }
        Ok(id)
    }

    /// The categories in store order.
    pub fn get_password_categories(&self) -> (r: Vec<PasswordCategory>)
        ensures
            r@ == self.categories(),
    {
        let mut out: Vec<PasswordCategory> = Vec::new();
        let mut i: usize = 0;
        while i < self.categories.len()
            invariant
                i <= self.categories@.len(),
                out@ == self.categories@.subrange(0, i as int),
            decreases self.categories@.len() - i,
        {
            out.push(copy_category(&self.categories[i]));
            i = i + 1;
            assert(self.categories@.subrange(0, i as int) =~= self.categories@.subrange(0, i - 1).push(self.categories@[i - 1]));
        }
        assert(self.categories@.subrange(0, i as int) =~= self.categories@);
        out
    }

    /// Adds `entry` with a new identity at time `now`; its category, if
    /// given, must exist.
    pub fn create_password_entry(&mut self, entry: PasswordEntry, now: String) -> (r: Result<i64, StoreError>)
        requires
            old(self).wf(),
        ensures
            category_ok(old(self).categories(), entry) ==> (r is Ok <==> old(self).next_entry_id() < i64::MAX),
            final(self).wf(),
            !category_ok(old(self).categories(), entry) ==> r == Err::<i64, StoreError>(StoreError::OwnerNotFound),
            r is Err ==> *final(self) == *old(self),
            r matches Ok(id) ==> {
                &&& final(self).entries() == old(self).entries().push(
                    PasswordEntry { id: Some(id), created_at: now, updated_at: now, ..entry },
                )
                &&& final(self).categories() == old(self).categories()
                &&& final(self).columns() == old(self).columns()
            },
    {
        match entry.category_id {
            Some(c) => {
                if self.find_category(c).is_none() {
                    return Err(StoreError::OwnerNotFound);
                }
            },
            None => {},
        }
        if self.next_entry_id == i64::MAX {
            return Err(StoreError::IdsExhausted);
        }
        let id = self.next_entry_id;
        let e = PasswordEntry { id: Some(id), created_at: now.clone(), updated_at: now, ..entry };
        let ghost e0 = self.entries@;
        self.entries.push(e);
        self.next_entry_id = id + 1;
        proof {
            let es = self.entries@;
            assert forall|a: int, b: int| 0 <= a < b < es.len() implies es[a].id != es[b].id by {
                if b == es.len() - 1 {
                    assert(id_below(e0[a].id, id));
                }
            }
        }
        Ok(id)
    }

    /// The entries of category `category_id`, in store order.
    pub fn get_password_entries_by_category(&self, category_id: i64) -> (r: Vec<PasswordEntry>)
        ensures
            forall|e: PasswordEntry| #[trigger] r@.contains(e) <==> self.entries().contains(e) && e.category_id == Some(category_id),
    {
        let mut out: Vec<PasswordEntry> = Vec::new();
        let mut i: usize = 0;
        while i < self.entries.len()
            invariant
                i <= self.entries@.len(),
                forall|e: PasswordEntry| #[trigger] out@.contains(e) <==> (exists|q: int| 0 <= q < i && self.entries@[q] == e) && e.category_id == Some(category_id),
            decreases self.entries@.len() - i,
        {
            let ghost before = out@;
            if self.entries[i].category_id == Some(category_id) {
                out.push(entry_with_category(&self.entries[i], Some(category_id)));
            }
            proof {
                assert forall|x: PasswordEntry| #[trigger] out@.contains(x) <==> (exists|q: int| 0 <= q < i + 1 && self.entries@[q] == x) && x.category_id == Some(category_id) by {
                    if out@.contains(x) {
                        let a = choose|a: int| 0 <= a < out@.len() && out@[a] == x;
                        if a < before.len() {
                            assert(before[a] == x);
                            assert(before.contains(x));
                            let q = choose|q: int| 0 <= q < i && self.entries@[q] == x;
                            assert(0 <= q < i + 1 && self.entries@[q] == x);
                        } else {
                            assert(self.entries@[i as int] == x);
                        }
                    }
                    if (exists|q: int| 0 <= q < i + 1 && self.entries@[q] == x) && x.category_id == Some(category_id) {
                        let q = choose|q: int| 0 <= q < i + 1 && self.entries@[q] == x;
                        if q < i {
                            assert(before.contains(x));
                            let a = choose|a: int| 0 <= a < before.len() && before[a] == x;
                            assert(out@[a] == x);
                        } else {
                            assert(out@[before.len() as int] == x);
                        }
                    }
                }
            }
            i = i + 1;
        }
        proof {
            assert forall|e: PasswordEntry| #[trigger] out@.contains(e) <==> self.entries@.contains(e) && e.category_id == Some(category_id) by {
                if self.entries@.contains(e) {
                    let q = choose|q: int| 0 <= q < self.entries@.len() && self.entries@[q] == e;
                }
            }
        }
        out
    }

    /// The entries in store order.
    pub fn get_password_entries(&self) -> (r: Vec<PasswordEntry>)
        ensures
            r@ == self.entries(),
    {
        let mut out: Vec<PasswordEntry> = Vec::new();
        let mut i: usize = 0;
        while i < self.entries.len()
            invariant
                i <= self.entries@.len(),
                out@ == self.entries@.subrange(0, i as int),
            decreases self.entries@.len() - i,
        {
            let e = &self.entries[i];
            out.push(entry_with_category(e, e.category_id));
            i = i + 1;
            assert(self.entries@.subrange(0, i as int) =~= self.entries@.subrange(0, i - 1).push(self.entries@[i - 1]));
        }
        assert(self.entries@.subrange(0, i as int) =~= self.entries@);
        out
    }

    /// Adds column `name` to the entry table unless it is there.
    fn ensure_column(&mut self, name: &str)
        ensures
            has_column(final(self).entry_columns@, name@),
            has_column(old(self).entry_columns@, name@) ==> *final(self) == *old(self),
            forall|n: Seq<char>| #[trigger] has_column(final(self).entry_columns@, n) <==> has_column(old(self).entry_columns@, n) || n == name@,
            !has_column(old(self).entry_columns@, name@) ==> final(self).entry_columns@.drop_last()
                == old(self).entry_columns@ && final(self).entry_columns@.last()@ == name@,
            final(self).categories == old(self).categories,
            final(self).entries == old(self).entries,
            final(self).next_category_id == old(self).next_category_id,
            final(self).next_entry_id == old(self).next_entry_id,
            columns_distinct(old(self).entry_columns@) ==> columns_distinct(final(self).entry_columns@),
    {
        let key = name.to_owned();
        let mut k: usize = 0;
        while k < self.entry_columns.len()
            invariant
                k <= self.entry_columns@.len(),
                key@ == name@,
                forall|j: int| 0 <= j < k ==> self.entry_columns@[j]@ != name@,
            decreases self.entry_columns@.len() - k,
        {
            if self.entry_columns[k] == key {
                return;
            }
            k = k + 1;
        }
        let ghost c0 = self.entry_columns@;
        self.entry_columns.push(key);
        assert(self.entry_columns@.drop_last() =~= c0);
        assert(self.entry_columns@[c0.len() as int]@ == name@);
        assert forall|a: int, b: int| columns_distinct(c0) && 0 <= a < b < self.entry_columns@.len() implies self.entry_columns@[a]@ != self.entry_columns@[b]@ by {
            if b == c0.len() {
                assert(self.entry_columns@[a] == c0[a]);
            } else {
                assert(self.entry_columns@[a] == c0[a] && self.entry_columns@[b] == c0[b]);
            }
        }
        assert forall|n: Seq<char>| #[trigger] has_column(self.entry_columns@, n) <==> has_column(c0, n) || n == name@ by {
            if has_column(self.entry_columns@, n) {
                let j = choose|j: int| 0 <= j < self.entry_columns@.len() && self.entry_columns@[j]@ == n;
                if j < c0.len() {
                    assert(c0[j] == self.entry_columns@[j]);
                }
            }
            if has_column(c0, n) {
                let j = choose|j: int| 0 <= j < c0.len() && c0[j]@ == n;
                assert(c0[j] == self.entry_columns@[j]);
            }
        }
    }

    /// Adds the category `name` unless one of that name exists.
    fn ensure_category(&mut self, name: &str, icon: &str, color: &str, now: &String)
        requires
            old(self).wf(),
            old(self).next_category_id < i64::MAX,
        ensures
            final(self).wf(),
            has_category_named(final(self).categories@, name@),
            has_category_named(old(self).categories@, name@) ==> *final(self) == *old(self),
            !has_category_named(old(self).categories@, name@) ==> final(self).categories@.drop_last()
                == old(self).categories@ && final(self).categories@.last().name@ == name@,
            final(self).entries == old(self).entries,
            final(self).entry_columns == old(self).entry_columns,
            final(self).next_category_id <= old(self).next_category_id + 1,
            final(self).categories@.len() == old(self).categories@.len() + if has_category_named(old(self).categories@, name@) { 0int } else { 1int },
            forall|n: Seq<char>| has_category_named(old(self).categories@, n) ==> #[trigger] has_category_named(final(self).categories@, n),
            forall|c: PasswordCategory| old(self).categories@.contains(c) ==> #[trigger] final(self).categories@.contains(c),
            forall|a: int| 0 <= a < final(self).categories@.len() ==> old(self).categories@.contains(#[trigger] final(self).categories@[a]) || final(self).categories@[a].name@ == name@,
    {
        if self.find_category_named(name).is_some() {
            return;
        }
        let id = self.next_category_id;
        let ghost c0 = self.categories@;
        self.categories.push(
            PasswordCategory {
                id: Some(id),
                name: name.to_owned(),
                icon: icon.to_owned(),
                color: Some(color.to_owned()),
                created_at: now.clone(),
            },
        );
        self.next_category_id = id + 1;
        proof {
            let cs = self.categories@;
            assert(cs.drop_last() =~= c0);
            assert forall|a: int| 0 <= a < self.entries@.len() implies category_ok(cs, #[trigger] self.entries@[a]) by {
                assert(category_ok(c0, self.entries@[a]));
                if let Some(c) = self.entries@[a].category_id {
                    let j = choose|j: int| 0 <= j < c0.len() && c0[j].id == Some(c);
                    assert(cs[j] == c0[j]);
                }
            }
            assert forall|a: int, b: int| 0 <= a < b < cs.len() implies cs[a].id != cs[b].id && cs[a].name@ != cs[b].name@ by {
                if b == cs.len() - 1 {
                    assert(id_below(c0[a].id, id));
                    assert(c0[a].name@ != name@);
                }
            }
            assert(cs[c0.len() as int].name@ == name@);
            assert forall|n: Seq<char>| has_category_named(c0, n) implies #[trigger] has_category_named(cs, n) by {
                let j = choose|j: int| 0 <= j < c0.len() && c0[j].name@ == n;
                assert(cs[j] == c0[j]);
            }
            assert forall|c: PasswordCategory| c0.contains(c) implies #[trigger] cs.contains(c) by {
                let j = choose|j: int| 0 <= j < c0.len() && c0[j] == c;
                assert(cs[j] == c0[j]);
            }
            assert forall|a: int| 0 <= a < cs.len() implies c0.contains(#[trigger] cs[a]) || cs[a].name@ == name@ by {
                if a < c0.len() {
                    assert(cs[a] == c0[a]);
                }
            }
        }
    }

    fn has_column_named(&self, name: &str) -> (r: bool)
        ensures
            r == has_column(self.entry_columns@, name@),
    {
        let key = name.to_owned();
        let mut k: usize = 0;
        while k < self.entry_columns.len()
            invariant
                k <= self.entry_columns@.len(),
                key@ == name@,
                forall|j: int| 0 <= j < k ==> self.entry_columns@[j]@ != name@,
            decreases self.entry_columns@.len() - k,
        {
            if self.entry_columns[k] == key {
                return true;
            }
            k = k + 1;
        }
        false
    }

    /// The vault already has every added column, no legacy category and
    /// every core category.
    fn is_migrated(&self) -> (r: bool)
        ensures
            r == migrated(*self),
    {
        proof {
            reveal_strlit("ip");
            reveal_strlit("db_type");
            reveal_strlit("db_ip");
            reveal_strlit("db_username");
            reveal_strlit("app_name");
            reveal_strlit("网站");
            reveal_strlit("应用软件");
            reveal_strlit("服务器");
            reveal_strlit("数据库");
            assert(added_columns()[0] == "ip"@ && added_columns()[1] == "db_type"@ && added_columns()[2] == "db_ip"@);
            assert(added_columns()[3] == "db_username"@ && added_columns()[4] == "app_name"@);
            assert(core_names()[0] == "网站"@ && core_names()[1] == "应用软件"@ && core_names()[2] == "服务器"@ && core_names()[3] == "数据库"@);
        }
        let cols = self.has_column_named("ip") && self.has_column_named("db_type") && self.has_column_named("db_ip")
            && self.has_column_named("db_username") && self.has_column_named("app_name");
        let legacy = self.has_legacy_category();
        let core = self.find_category_named("网站").is_some() && self.find_category_named("应用软件").is_some()
            && self.find_category_named("服务器").is_some() && self.find_category_named("数据库").is_some();
        proof {
            if cols {
                assert forall|k: int| 0 <= k < added_columns().len() implies has_column(self.columns(), #[trigger] added_columns()[k]) by {}
            }
            if core {
                assert forall|k: int| 0 <= k < core_names().len() implies has_category_named(self.categories(), #[trigger] core_names()[k]) by {}
            }
            if migrated(*self) {
                assert(has_column(self.columns(), added_columns()[0]));
                assert(has_column(self.columns(), added_columns()[1]));
                assert(has_column(self.columns(), added_columns()[2]));
                assert(has_column(self.columns(), added_columns()[3]));
                assert(has_column(self.columns(), added_columns()[4]));
                assert(has_category_named(self.categories(), core_names()[0]));
                assert(has_category_named(self.categories(), core_names()[1]));
                assert(has_category_named(self.categories(), core_names()[2]));
                assert(has_category_named(self.categories(), core_names()[3]));
            }
        }
        cols && !legacy && core
    }

    fn has_legacy_category(&self) -> (r: bool)
        ensures
            r == exists|i: int| 0 <= i < self.categories@.len() && is_legacy_name(#[trigger] self.categories@[i].name@),
    {
        let a = "邮箱".to_owned();
        let b = "社交媒体".to_owned();
        let c = "金融理财".to_owned();
        let d = "其他".to_owned();
        let e = "网站账号".to_owned();
        let mut k: usize = 0;
        while k < self.categories.len()
            invariant
                k <= self.categories@.len(),
                a@ == "邮箱"@,
                b@ == "社交媒体"@,
                c@ == "金融理财"@,
                d@ == "其他"@,
                e@ == "网站账号"@,
                forall|j: int| 0 <= j < k ==> !is_legacy_name(#[trigger] self.categories@[j].name@),
            decreases self.categories@.len() - k,
        {
            let n = &self.categories[k].name;
            if *n == a || *n == b || *n == c || *n == d || *n == e {
                return true;
            }
            k = k + 1;
        }
        false
    }

    /// Brings the vault to its current shape at time `now`: adds the entry
    /// columns that are missing; if a legacy category exists, clears every
    /// entry's category and removes all categories; then adds each core
    /// category that is missing. A vault already in shape is left as it is.
    pub fn migrate(&mut self, now: String) -> (r: Result<(), StoreError>)
        requires
            old(self).wf(),
        ensures
            migrated(*old(self)) || old(self).next_category_id() <= i64::MAX - 4 <==> r is Ok,
            r is Err ==> *final(self) == *old(self),
            r is Ok ==> migration_step(*old(self), *final(self)),
    {
        if self.is_migrated() {
            return Ok(());
        }
        if self.next_category_id > i64::MAX - 4 {
            return Err(StoreError::IdsExhausted);
        }
        let ghost s0 = *self;
        proof {
            reveal_strlit("ip");
            reveal_strlit("db_type");
            reveal_strlit("db_ip");
            reveal_strlit("db_username");
            reveal_strlit("app_name");
        }
        self.ensure_column("ip");
        self.ensure_column("db_type");
        self.ensure_column("db_ip");
        self.ensure_column("db_username");
        self.ensure_column("app_name");
        let ghost s1 = *self;
        assert(self.wf());
        let legacy = self.has_legacy_category();
        if legacy {
            let mut cleared: Vec<PasswordEntry> = Vec::new();
            let mut i: usize = 0;
            while i < self.entries.len()
                invariant
                    i <= self.entries@.len(),
                    cleared@.len() == i,
                    forall|a: int| 0 <= a < i ==> uncategorised(#[trigger] cleared@[a], self.entries@[a]),
                decreases self.entries@.len() - i,
            {
                cleared.push(entry_with_category(&self.entries[i], None));
                i = i + 1;
            }
            self.entries = cleared;
            self.categories = Vec::new();
            proof {
                let es = self.entries@;
                assert forall|a: int, b: int| 0 <= a < b < es.len() implies es[a].id != es[b].id by {
                    assert(uncategorised(es[a], s1.entries@[a]));
                    assert(uncategorised(es[b], s1.entries@[b]));
                }
                assert forall|a: int| 0 <= a < es.len() implies id_below(#[trigger] es[a].id, self.next_entry_id) by {
                    assert(uncategorised(es[a], s1.entries@[a]));
                }
                assert forall|a: int| 0 <= a < es.len() implies category_ok(self.categories@, #[trigger] es[a]) by {
                    assert(uncategorised(es[a], s1.entries@[a]));
                }
            }
        }
        let ghost s2 = *self;
        proof {
            reveal_strlit("网站");
            reveal_strlit("应用软件");
            reveal_strlit("服务器");
            reveal_strlit("数据库");
            reveal_strlit("邮箱");
            reveal_strlit("社交媒体");
            reveal_strlit("金融理财");
            reveal_strlit("其他");
            reveal_strlit("网站账号");
        }
        self.ensure_category("网站", "BrowserChrome", "#10B981", &now);
        let ghost t1 = *self;
        self.ensure_category("应用软件", "AllApplication", "#3B82F6", &now);
        let ghost t2 = *self;
        self.ensure_category("服务器", "CodeComputer", "#F59E0B", &now);
        let ghost t3 = *self;
        self.ensure_category("数据库", "DataLock", "#8B5CF6", &now);
        proof {
            let cs = self.categories@;
            let (n1, n2, n3, n4) = ("网站"@, "应用软件"@, "服务器"@, "数据库"@);
            assert(core_names()[0] == n1 && core_names()[1] == n2 && core_names()[2] == n3 && core_names()[3] == n4);
            assert(added_columns()[0] == "ip"@ && added_columns()[1] == "db_type"@ && added_columns()[2] == "db_ip"@);
            assert(added_columns()[3] == "db_username"@ && added_columns()[4] == "app_name"@);
            assert(n1.len() == 2 && n1[0] == '网' && n2.len() == 4 && n2[0] == '应');
            assert(n3.len() == 3 && n4.len() == 3);
            assert("邮箱"@.len() == 2 && "邮箱"@[0] == '邮' && "社交媒体"@.len() == 4 && "社交媒体"@[0] == '社');
            assert("金融理财"@.len() == 4 && "金融理财"@[0] == '金' && "其他"@.len() == 2 && "其他"@[0] == '其');
            assert("网站账号"@.len() == 4 && "网站账号"@[0] == '网');
            assert(!is_legacy_name(n1) && !is_legacy_name(n2) && !is_legacy_name(n3) && !is_legacy_name(n4));
            assert(n1 != n2 && n1 != n3 && n1 != n4 && n2 != n3 && n2 != n4);
            assert(n3[0] == '服' && n4[0] == '数');
            assert(n3 != n4);
            // where each category came from
            let base = s2.categories@;
            let names1 = set![n1];
            let names2 = names1.insert(n2);
            let names3 = names2.insert(n3);
            let names4 = names3.insert(n4);
            assert(from_base(base, base, Set::empty()));
            lemma_from_step(base, t1.categories@, base, Set::empty(), n1);
            assert(Set::<Seq<char>>::empty().insert(n1) =~= names1);
            lemma_from_step(t1.categories@, t2.categories@, base, names1, n2);
            lemma_from_step(t2.categories@, t3.categories@, base, names2, n3);
            lemma_from_step(t3.categories@, cs, base, names3, n4);
            assert forall|c: PasswordCategory| #[trigger] cs.contains(c) implies s0.categories@.contains(c) || core_names().contains(c.name@) by {
                let a = choose|a: int| 0 <= a < cs.len() && cs[a] == c;
                if !base.contains(cs[a]) {
                    assert(names4.contains(c.name@));
                    if c.name@ == n1 { assert(core_names()[0] == c.name@); }
                    if c.name@ == n2 { assert(core_names()[1] == c.name@); }
                    if c.name@ == n3 { assert(core_names()[2] == c.name@); }
                    if c.name@ == n4 { assert(core_names()[3] == c.name@); }
                } else if !legacy {
                    assert(s2.categories@ == s0.categories@);
                }
            }
            assert(has_category_named(cs, n1) && has_category_named(cs, n2) && has_category_named(cs, n3) && has_category_named(cs, n4));
            assert forall|a: int| 0 <= a < cs.len() implies !is_legacy_name(#[trigger] cs[a].name@) by {
                if base.contains(cs[a]) {
                    let j = choose|j: int| 0 <= j < base.len() && base[j] == cs[a];
                    if !legacy {
                        assert(s2.categories@ == s0.categories@);
                    }
                }
            }
            assert forall|k: int| 0 <= k < added_columns().len() implies has_column(self.entry_columns@, #[trigger] added_columns()[k]) by {}
            assert forall|n: Seq<char>| has_column(self.entry_columns@, n) <==> has_column(s0.entry_columns@, n) || added_columns().contains(n) by {
                if added_columns().contains(n) {
                    let k = choose|k: int| 0 <= k < added_columns().len() && added_columns()[k] == n;
                }
                if n == "ip"@ { assert(added_columns()[0] == n); }
                if n == "db_type"@ { assert(added_columns()[1] == n); }
                if n == "db_ip"@ { assert(added_columns()[2] == n); }
                if n == "db_username"@ { assert(added_columns()[3] == n); }
                if n == "app_name"@ { assert(added_columns()[4] == n); }
            }
            if legacy {
                assert(base.len() == 0);
                assert(!has_category_named(t1.categories@, n2)) by {
                    if has_category_named(t1.categories@, n2) {
                        let j = choose|j: int| 0 <= j < t1.categories@.len() && t1.categories@[j].name@ == n2;
                        assert(!base.contains(t1.categories@[j]));
                    }
                }
                assert(!has_category_named(t2.categories@, n3)) by {
                    if has_category_named(t2.categories@, n3) {
                        let j = choose|j: int| 0 <= j < t2.categories@.len() && t2.categories@[j].name@ == n3;
                        assert(!base.contains(t2.categories@[j]));
                    }
                }
                assert(!has_category_named(t3.categories@, n4)) by {
                    if has_category_named(t3.categories@, n4) {
                        let j = choose|j: int| 0 <= j < t3.categories@.len() && t3.categories@[j].name@ == n4;
                        assert(!base.contains(t3.categories@[j]));
                    }
                }
                assert(!has_category_named(base, n1));
            } else {
                assert(self.entries@ == s0.entries@);
            }
            if migrated(s0) {
                assert(has_column(s0.entry_columns@, added_columns()[0]));
                assert(has_column(s0.entry_columns@, added_columns()[1]));
                assert(has_column(s0.entry_columns@, added_columns()[2]));
                assert(has_column(s0.entry_columns@, added_columns()[3]));
                assert(has_column(s0.entry_columns@, added_columns()[4]));
                assert(s1 == s0);
                assert(!legacy);
                assert(has_category_named(s0.categories@, core_names()[0]));
                assert(has_category_named(s0.categories@, core_names()[1]));
                assert(has_category_named(s0.categories@, core_names()[2]));
                assert(has_category_named(s0.categories@, core_names()[3]));
            }
        }
        Ok(())
    }

    /// Deletes category `id`; entries that referred to it become uncategorised.
    pub fn delete_password_category(&mut self, id: i64)
        requires
            old(self).wf(),
        ensures
            final(self).wf(),
            !has_category(final(self).categories(), id),
            forall|c: PasswordCategory| #[trigger] final(self).categories().contains(c) <==> old(self).categories().contains(c) && c.id != Some(id),
            final(self).entries().len() == old(self).entries().len(),
            forall|i: int|
                0 <= i < old(self).entries().len() ==> #[trigger] final(self).entries()[i] == if old(self).entries()[i].category_id == Some(id) {
                    PasswordEntry { category_id: None, ..old(self).entries()[i] }
                } else {
                    old(self).entries()[i]
                },
    {
        let ghost e0 = self.entries@;
        let ghost c0 = self.categories@;
        let mut es: Vec<PasswordEntry> = Vec::new();
        let mut i: usize = 0;
        while i < self.entries.len()
            invariant
                i <= e0.len(),
                self.entries@ == e0,
                es@.len() == i,
                forall|a: int| 0 <= a < i ==> #[trigger] es@[a] == if e0[a].category_id == Some(id) {
                    PasswordEntry { category_id: None, ..e0[a] }
                } else {
                    e0[a]
                },
            decreases e0.len() - i,
        {
            let e = &self.entries[i];
            let ne = if e.category_id == Some(id) {
                entry_with_category(e, None)
            } else {
                entry_with_category(e, e.category_id)
            };
            es.push(ne);
            i = i + 1;
        }
        let mut k: usize = 0;
        while k < self.categories.len() && self.categories[k].id != Some(id)
            invariant
                k <= self.categories@.len(),
                forall|j: int| 0 <= j < k ==> self.categories@[j].id != Some(id),
            decreases self.categories@.len() - k,
        {
            k = k + 1;
        }
        if k < self.categories.len() {
            self.categories.remove(k);
        }
        self.entries = es;
        proof {
            let cs = self.categories@;
            if k < c0.len() {
                assert(cs == c0.remove(k as int));
                assert forall|a: int| 0 <= a < c0.len() && a != k implies c0[a].id != Some(id) by {
                    if a > k {
                        assert(c0[k as int].id != c0[a].id);
                    }
                }
                assert forall|a: int| 0 <= a < cs.len() implies cs[a] == c0[if a < k { a } else { a + 1 }] by {}
            } else {
                assert(cs == c0);
            }
            assert forall|a: int, b: int| 0 <= a < b < cs.len() implies cs[a].id != cs[b].id && cs[a].name@ != cs[b].name@ by {
                if k < c0.len() {
                    let a0 = if a < k { a } else { a + 1 };
                    let b0 = if b < k { b } else { b + 1 };
                    assert(cs[a] == c0[a0] && cs[b] == c0[b0]);
                }
            }
            assert forall|a: int| 0 <= a < cs.len() implies id_below(#[trigger] cs[a].id, self.next_category_id) by {
                if k < c0.len() {
                    let a0 = if a < k { a } else { a + 1 };
                    assert(cs[a] == c0[a0]);
                }
            }
            assert forall|c: PasswordCategory| #[trigger] cs.contains(c) <==> c0.contains(c) && c.id != Some(id) by {
                if cs.contains(c) {
                    let a = choose|a: int| 0 <= a < cs.len() && cs[a] == c;
                    if k < c0.len() {
                        let a0 = if a < k { a } else { a + 1 };
                        assert(cs[a] == c0[a0]);
                    }
                }
                if c0.contains(c) && c.id != Some(id) {
                    let q = choose|q: int| 0 <= q < c0.len() && c0[q] == c;
                    if k < c0.len() {
                        if q < k { assert(cs[q] == c); } else { assert(q != k); assert(cs[q - 1] == c); }
                    } else {
                        assert(cs[q] == c);
                    }
                }
            }
            assert(!has_category(cs, id)) by {
                if has_category(cs, id) {
                    let a = choose|a: int| 0 <= a < cs.len() && cs[a].id == Some(id);
                    assert(cs.contains(cs[a]));
                }
            }
            let ns = self.entries@;
            assert forall|a: int| 0 <= a < ns.len() implies category_ok(cs, #[trigger] ns[a]) by {
                assert(category_ok(c0, e0[a]));
                if let Some(c) = ns[a].category_id {
                    assert(c != id);
                    let j = choose|j: int| 0 <= j < c0.len() && c0[j].id == Some(c);
                    assert(cs.contains(c0[j]));
                    let q = choose|q: int| 0 <= q < cs.len() && cs[q] == c0[j];
                }
            }
            assert forall|a: int, b: int| 0 <= a < b < ns.len() implies ns[a].id != ns[b].id by {
                assert(ns[a].id == e0[a].id && ns[b].id == e0[b].id);
            }
            assert forall|a: int| 0 <= a < ns.len() implies id_below(#[trigger] ns[a].id, self.next_entry_id) by {
                assert(ns[a].id == e0[a].id);
            }
        }
    }

    /// The favorite entries, in store order.
    pub fn get_favorite_password_entries(&self) -> (r: Vec<PasswordEntry>)
        ensures
            forall|e: PasswordEntry| #[trigger] r@.contains(e) <==> self.entries().contains(e) && e.is_favorite,
    {
        let mut out: Vec<PasswordEntry> = Vec::new();
        let mut i: usize = 0;
        while i < self.entries.len()
            invariant
                i <= self.entries@.len(),
                forall|e: PasswordEntry| #[trigger] out@.contains(e) <==> (exists|q: int| 0 <= q < i && self.entries@[q] == e) && e.is_favorite,
            decreases self.entries@.len() - i,
        {
            let ghost before = out@;
            let e = &self.entries[i];
            if e.is_favorite {
                out.push(entry_with_category(e, e.category_id));
            }
            proof {
                assert forall|x: PasswordEntry| #[trigger] out@.contains(x) <==> (exists|q: int| 0 <= q < i + 1 && self.entries@[q] == x) && x.is_favorite by {
                    if out@.contains(x) {
                        let a = choose|a: int| 0 <= a < out@.len() && out@[a] == x;
                        if a < before.len() {
                            assert(before[a] == x);
                            assert(before.contains(x));
                            let q = choose|q: int| 0 <= q < i && self.entries@[q] == x;
                            assert(0 <= q < i + 1 && self.entries@[q] == x);
                        } else {
                            assert(self.entries@[i as int] == x);
                        }
                    }
                    if (exists|q: int| 0 <= q < i + 1 && self.entries@[q] == x) && x.is_favorite {
                        let q = choose|q: int| 0 <= q < i + 1 && self.entries@[q] == x;
                        if q < i {
                            assert(before.contains(x));
                            let a = choose|a: int| 0 <= a < before.len() && before[a] == x;
                            assert(out@[a] == x);
                        } else {
                            assert(out@[before.len() as int] == x);
                        }
                    }
                }
            }
            i = i + 1;
        }
        proof {
            assert forall|e: PasswordEntry| #[trigger] out@.contains(e) <==> self.entries@.contains(e) && e.is_favorite by {
                if self.entries@.contains(e) {
                    let q = choose|q: int| 0 <= q < self.entries@.len() && self.entries@[q] == e;
                }
            }
        }
        out
    }

    /// The entries in which `query` occurs in a searchable field, ignoring
    /// ASCII case, in store order.
    pub fn search_password_entries(&self, query: &str) -> (r: Vec<PasswordEntry>)
        ensures
            forall|e: PasswordEntry| #[trigger] r@.contains(e) <==> self.entries().contains(e) && entry_found(e, query@),
    {
        let qc = chars_of(query);
        let q = fold_chars(&qc);
        let mut out: Vec<PasswordEntry> = Vec::new();
        let mut i: usize = 0;
        while i < self.entries.len()
            invariant
                i <= self.entries@.len(),
                q@ == fold(query@),
                forall|e: PasswordEntry| #[trigger] out@.contains(e) <==> (exists|j: int| 0 <= j < i && self.entries@[j] == e) && entry_found(e, query@),
            decreases self.entries@.len() - i,
        {
            let e = &self.entries[i];
            let t = chars_of(e.title.as_str());
            let tf = fold_chars(&t);
            let hit = contains_chars(&tf, &q) || opt_found_exec(&e.username, &q) || opt_found_exec(&e.url, &q)
                || opt_found_exec(&e.notes, &q) || opt_found_exec(&e.ip, &q) || opt_found_exec(&e.db_type, &q)
                || opt_found_exec(&e.db_ip, &q) || opt_found_exec(&e.db_username, &q) || opt_found_exec(&e.app_name, &q);
            let ghost before = out@;
            if hit {
                out.push(entry_with_category(e, e.category_id));
            }
            proof {
                assert(hit == entry_found(*e, query@));
                assert forall|x: PasswordEntry| #[trigger] out@.contains(x) <==> (exists|j: int| 0 <= j < i + 1 && self.entries@[j] == x) && entry_found(x, query@) by {
                    if out@.contains(x) {
                        let a = choose|a: int| 0 <= a < out@.len() && out@[a] == x;
                        if a < before.len() {
                            assert(before[a] == x);
                            assert(before.contains(x));
                            let j = choose|j: int| 0 <= j < i && self.entries@[j] == x;
                            assert(0 <= j < i + 1 && self.entries@[j] == x);
                        } else {
                            assert(self.entries@[i as int] == x);
                        }
                    }
                    if (exists|j: int| 0 <= j < i + 1 && self.entries@[j] == x) && entry_found(x, query@) {
                        let j = choose|j: int| 0 <= j < i + 1 && self.entries@[j] == x;
                        if j < i {
                            assert(before.contains(x));
                            let a = choose|a: int| 0 <= a < before.len() && before[a] == x;
                            assert(out@[a] == x);
                        } else {
                            assert(out@[before.len() as int] == x);
                        }
                    }
                }
            }
            i = i + 1;
        }
        proof {
            assert forall|e: PasswordEntry| #[trigger] out@.contains(e) <==> self.entries@.contains(e) && entry_found(e, query@) by {
                if self.entries@.contains(e) {
                    let j = choose|j: int| 0 <= j < self.entries@.len() && self.entries@[j] == e;
                }
            }
        }
        out
    }

    /// Replaces the fields of entry `id` with those of `entry` at time `now`,
    /// keeping its identity and creation time; its category, if given, must
    /// exist.
    pub fn update_password_entry(&mut self, id: i64, entry: PasswordEntry, now: String) -> (r: Result<(), StoreError>)
        requires
            old(self).wf(),
        ensures
            final(self).wf(),
            !category_ok(old(self).categories(), entry) ==> r == Err::<(), StoreError>(StoreError::OwnerNotFound),
            r is Err ==> *final(self) == *old(self),
            r is Ok ==> {
                &&& final(self).categories() == old(self).categories()
                &&& final(self).entries().len() == old(self).entries().len()
                &&& forall|i: int|
                    0 <= i < old(self).entries().len() ==> #[trigger] final(self).entries()[i] == if old(self).entries()[i].id == Some(id) {
                        PasswordEntry { id: Some(id), created_at: old(self).entries()[i].created_at, updated_at: now, ..entry }
                    } else {
                        old(self).entries()[i]
                    }
            },
    {
        match entry.category_id {
            Some(c) => {
                if self.find_category(c).is_none() {
                    return Err(StoreError::OwnerNotFound);
                }
            },
            None => {},
        }
        let mut k: usize = 0;
        while k < self.entries.len() && self.entries[k].id != Some(id)
            invariant
                k <= self.entries@.len(),
                forall|j: int| 0 <= j < k ==> self.entries@[j].id != Some(id),
            decreases self.entries@.len() - k,
        {
            k = k + 1;
        }
        if k == self.entries.len() {
            return Ok(());
        }
        let ghost e0 = self.entries@;
        let created = self.entries[k].created_at.clone();
        let ne = PasswordEntry { id: Some(id), created_at: created, updated_at: now, ..entry };
        self.entries.set(k, ne);
        proof {
            let es = self.entries@;
            assert forall|a: int| 0 <= a < e0.len() && a != k implies e0[a].id != Some(id) by {
                if a > k {
                    assert(e0[k as int].id != e0[a].id);
                }
            }
            assert forall|a: int, b: int| 0 <= a < b < es.len() implies es[a].id != es[b].id by {
                assert(es[a].id == e0[a].id && es[b].id == e0[b].id);
            }
            assert forall|a: int| 0 <= a < es.len() implies id_below(#[trigger] es[a].id, self.next_entry_id) by {
                assert(es[a].id == e0[a].id);
            }
        }
        Ok(())
    }

    /// The stored (encrypted) password of entry `entry_id`, stamping the
    /// entry as used at time `now`.
    pub fn get_decrypted_password(&mut self, entry_id: i64, now: String) -> (r: Result<String, StoreError>)
        requires
            old(self).wf(),
        ensures
            r is Err ==> r == Err::<String, StoreError>(StoreError::NotFound),
            final(self).wf(),
            final(self).categories() == old(self).categories(),
            !(exists|i: int| 0 <= i < old(self).entries().len() && old(self).entries()[i].id == Some(entry_id)) <==> r
                == Err::<String, StoreError>(StoreError::NotFound),
            r is Err ==> *final(self) == *old(self),
            r matches Ok(p) ==> exists|i: int|
                0 <= i < old(self).entries().len() && old(self).entries()[i].id == Some(entry_id) && p
                    == old(self).entries()[i].password_encrypted && final(self).entries() == old(self).entries().update(
                    i,
                    PasswordEntry { last_used_at: Some(now), ..old(self).entries()[i] },
                ),
    {
        let mut k: usize = 0;
        while k < self.entries.len() && self.entries[k].id != Some(entry_id)
            invariant
                k <= self.entries@.len(),
                forall|j: int| 0 <= j < k ==> self.entries@[j].id != Some(entry_id),
            decreases self.entries@.len() - k,
        {
            k = k + 1;
        }
        if k == self.entries.len() {
            return Err(StoreError::NotFound);
        }
        let ghost e0 = self.entries@;
        let pw = self.entries[k].password_encrypted.clone();
        let mut e = entry_with_category(&self.entries[k], self.entries[k].category_id);
        e.last_used_at = Some(now);
        self.entries.set(k, e);
        proof {
            let es = self.entries@;
            assert(es =~= e0.update(k as int, es[k as int]));
            assert forall|a: int, b: int| 0 <= a < b < es.len() implies es[a].id != es[b].id by {
                assert(es[a].id == e0[a].id && es[b].id == e0[b].id);
            }
            assert forall|a: int| 0 <= a < es.len() implies id_below(#[trigger] es[a].id, self.next_entry_id) && category_ok(self.categories@, es[a]) by {
                assert(es[a].id == e0[a].id && es[a].category_id == e0[a].category_id);
                assert(category_ok(self.categories@, e0[a]));
            }
        }
        Ok(pw)
    }

    /// Deletes entry `id`, if present.
    pub fn delete_password_entry(&mut self, id: i64)
        requires
            old(self).wf(),
        ensures
            final(self).wf(),
            final(self).categories() == old(self).categories(),
            forall|e: PasswordEntry| #[trigger] final(self).entries().contains(e) <==> old(self).entries().contains(e) && e.id != Some(id),
    {
        let ghost e0 = self.entries@;
        let mut k: usize = 0;
        while k < self.entries.len() && self.entries[k].id != Some(id)
            invariant
                k <= self.entries@.len(),
                self.entries@ == e0,
                forall|j: int| 0 <= j < k ==> e0[j].id != Some(id),
            decreases self.entries@.len() - k,
        {
            k = k + 1;
        }
        if k == self.entries.len() {
            assert forall|e: PasswordEntry| #[trigger] e0.contains(e) implies e.id != Some(id) by {
                let q = choose|q: int| 0 <= q < e0.len() && e0[q] == e;
            }
            return;
        }
        self.entries.remove(k);
        proof {
            let es = self.entries@;
            assert(es == e0.remove(k as int));
            assert forall|a: int, b: int| 0 <= a < b < es.len() implies es[a].id != es[b].id by {
                let a0 = if a < k { a } else { a + 1 };
                let b0 = if b < k { b } else { b + 1 };
                assert(es[a] == e0[a0] && es[b] == e0[b0]);
            }
            assert forall|a: int| 0 <= a < es.len() implies id_below(#[trigger] es[a].id, self.next_entry_id) && category_ok(self.categories@, es[a]) by {
                let a0 = if a < k { a } else { a + 1 };
                assert(es[a] == e0[a0]);
            }
            assert forall|e: PasswordEntry| #[trigger] es.contains(e) <==> e0.contains(e) && e.id != Some(id) by {
                if es.contains(e) {
                    let a = choose|a: int| 0 <= a < es.len() && es[a] == e;
                    let a0 = if a < k { a } else { a + 1 };
                    assert(es[a] == e0[a0]);
                    if a0 < k { assert(e0[a0].id != e0[k as int].id); } else { assert(e0[k as int].id != e0[a0].id); }
                }
                if e0.contains(e) && e.id != Some(id) {
                    let q = choose|q: int| 0 <= q < e0.len() && e0[q] == e;
                    if q < k { assert(es[q] == e); } else { assert(q != k); assert(es[q - 1] == e); }
                }
            }
        }
    }

    /// Renames and restyles category `id`; a name that another category
    /// already has is refused.
    pub fn update_password_category(&mut self, id: i64, name: String, icon: String, color: Option<String>) -> (r: Result<(), StoreError>)
        requires
            old(self).wf(),
        ensures
            r is Err ==> r == Err::<(), StoreError>(StoreError::DuplicateId),
            final(self).wf(),
            final(self).entries() == old(self).entries(),
            (exists|j: int| 0 <= j < old(self).categories().len() && old(self).categories()[j].name@ == name@ && old(self).categories()[j].id != Some(id))
                <==> r == Err::<(), StoreError>(StoreError::DuplicateId),
            r is Err ==> *final(self) == *old(self),
            r is Ok ==> final(self).categories().len() == old(self).categories().len() && forall|i: int|
                0 <= i < old(self).categories().len() ==> #[trigger] final(self).categories()[i] == if old(self).categories()[i].id == Some(id) {
                    PasswordCategory { name: name, icon: icon, color: color, ..old(self).categories()[i] }
                } else {
                    old(self).categories()[i]
                },
    {
        let ghost c0 = self.categories@;
        let key = name.clone();
        let mut j: usize = 0;
        while j < self.categories.len()
            invariant
                j <= c0.len(),
                *self == *old(self),
                self.wf(),
                self.categories@ == c0,
                key@ == name@,
                forall|q: int| 0 <= q < j ==> !(c0[q].name@ == name@ && c0[q].id != Some(id)),
            decreases c0.len() - j,
        {
            if self.categories[j].name == key && self.categories[j].id != Some(id) {
                return Err(StoreError::DuplicateId);
            }
            j = j + 1;
        }
        let k = match self.find_category(id) {
            Some(k) => k,
            None => {
                return Ok(());
            },
        };
        let created = self.categories[k].created_at.clone();
        self.categories.set(k, PasswordCategory { id: Some(id), name, icon, color, created_at: created });
        proof {
            let cs = self.categories@;
            assert forall|a: int| 0 <= a < c0.len() && a != k implies c0[a].id != Some(id) by {
                if a < k { assert(c0[a].id != c0[k as int].id); } else { assert(c0[k as int].id != c0[a].id); }
            }
            assert forall|a: int, b: int| 0 <= a < b < cs.len() implies cs[a].id != cs[b].id && cs[a].name@ != cs[b].name@ by {
                assert(cs[a].id == c0[a].id && cs[b].id == c0[b].id);
            }
            assert forall|a: int| 0 <= a < cs.len() implies id_below(#[trigger] cs[a].id, self.next_category_id) by {
                assert(cs[a].id == c0[a].id);
            }
            assert forall|a: int| 0 <= a < self.entries@.len() implies category_ok(cs, #[trigger] self.entries@[a]) by {
                assert(category_ok(c0, self.entries@[a]));
                if let Some(c) = self.entries@[a].category_id {
                    let q = choose|q: int| 0 <= q < c0.len() && c0[q].id == Some(c);
                    assert(cs[q].id == c0[q].id);
                }
            }
        }
        Ok(())
    }

    /// What every well-formed vault satisfies: category names and
    /// identities are unique, entry identities are unique, and no entry
    /// refers to a missing category.
    pub proof fn lemma_wf_facts(&self)
        requires
            self.wf(),
        ensures
            forall|i: int, j: int|
                0 <= i < j < self.categories().len() ==> self.categories()[i].id != self.categories()[j].id
                    && self.categories()[i].name@ != self.categories()[j].name@,
            forall|i: int, j: int| 0 <= i < j < self.entries().len() ==> self.entries()[i].id != self.entries()[j].id,
            forall|i: int| 0 <= i < self.entries().len() ==> category_ok(self.categories(), #[trigger] self.entries()[i]),
    {
    }
}

/// Running the migration twice in a row changes nothing the second time:
/// no column is added twice and no core category is seeded twice.
pub proof fn lemma_migration_idempotent(first: PasswordStore, second: PasswordStore, third: PasswordStore)
    requires
        migration_step(first, second),
        migration_step(second, third),
    ensures
        third == second,
{
}

} // verus!
