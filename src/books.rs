//! Books, with their reading notes and highlights. A book owns its notes
//! and highlights: deleting it deletes them, and they can only be added to
//! an existing book.
use vstd::prelude::*;
use crate::chars::{chars_of, copy_opt, opt_str_view};
use crate::cardbox::{contains_chars, contains_seq};
use crate::clock::{new_id, now_millis};
use crate::error::StoreError;

verus! {

/// A book on the reading list; `status` defaults to `wanted`.
pub struct Book {
    pub id: String,
    pub title: String,
    pub author: Option<String>,
    pub isbn: Option<String>,
    pub cover: Option<String>,
    pub status: String,
    pub total_pages: Option<i32>,
    pub current_page: i32,
    pub rating: Option<i32>,
    pub tags: Option<String>,
    pub description: Option<String>,
    pub start_date: Option<i64>,
    pub finish_date: Option<i64>,
    pub created_at: i64,
    pub updated_at: i64,
}

/// The fields of a new book.
pub struct BookCreate {
    pub title: String,
    pub author: Option<String>,
    pub isbn: Option<String>,
    pub cover: Option<String>,
    pub status: Option<String>,
    pub total_pages: Option<i32>,
    pub current_page: Option<i32>,
    pub rating: Option<i32>,
    pub tags: Option<String>,
    pub description: Option<String>,
}

/// The fields of a book to change; absent fields stay as they are.
pub struct BookUpdate {
    pub title: Option<String>,
    pub author: Option<String>,
    pub isbn: Option<String>,
    pub cover: Option<String>,
    pub status: Option<String>,
    pub total_pages: Option<i32>,
    pub current_page: Option<i32>,
    pub rating: Option<i32>,
    pub tags: Option<String>,
    pub description: Option<String>,
    pub start_date: Option<i64>,
    pub finish_date: Option<i64>,
}

/// A note taken while reading a book; `note_type` defaults to `note`.
pub struct ReadingNote {
    pub id: String,
    pub book_id: String,
    pub chapter: Option<String>,
    pub page_number: Option<i32>,
    pub content: String,
    pub note_type: String,
    pub created_at: i64,
    pub updated_at: i64,
}

/// The fields of a new reading note.
pub struct ReadingNoteCreate {
    pub book_id: String,
    pub chapter: Option<String>,
    pub page_number: Option<i32>,
    pub content: String,
    pub note_type: Option<String>,
}

/// A highlighted passage of a book; `color` defaults to `yellow`.
pub struct BookHighlight {
    pub id: String,
    pub book_id: String,
    pub note_id: Option<String>,
    pub text: String,
    pub page_number: Option<i32>,
    pub color: String,
    pub notes: Option<String>,
    pub created_at: i64,
}

/// The fields of a new highlight.
pub struct BookHighlightCreate {
    pub book_id: String,
    pub note_id: Option<String>,
    pub text: String,
    pub page_number: Option<i32>,
    pub color: Option<String>,
    pub notes: Option<String>,
}

/// Books, notes and highlights.
pub struct BookStore {
    books: Vec<Book>,
    notes: Vec<ReadingNote>,
    highlights: Vec<BookHighlight>,
}

pub open spec fn has_book(bs: Seq<Book>, id: Seq<char>) -> bool {
    exists|j: int| 0 <= j < bs.len() && bs[j].id@ == id
}

pub open spec fn has_note(ns: Seq<ReadingNote>, id: Seq<char>) -> bool {
    exists|j: int| 0 <= j < ns.len() && ns[j].id@ == id
}

pub open spec fn has_highlight(hs: Seq<BookHighlight>, id: Seq<char>) -> bool {
    exists|j: int| 0 <= j < hs.len() && hs[j].id@ == id
}

pub open spec fn opt_contains(o: Option<String>, q: Seq<char>) -> bool {
    match o {
        Some(s) => contains_seq(s@, q),
        None => false,
    }
}

/// `q` occurs in the title, author, description or tags of `b`.
pub open spec fn book_matches(b: Book, q: Seq<char>) -> bool {
    contains_seq(b.title@, q) || opt_contains(b.author, q) || opt_contains(b.description, q) || opt_contains(b.tags, q)
}

/// The books among the first `n` of `bs` that pass the status filter.
pub open spec fn books_with_status(bs: Seq<Book>, status: Option<Seq<char>>, n: int) -> Seq<Book>
    decreases n,
{
    if n <= 0 {
        seq![]
    } else {
        books_with_status(bs, status, n - 1) + if (status matches Some(s) ==> bs[n - 1].status@ == s) {
            seq![bs[n - 1]]
        } else {
            seq![]
        }
    }
}

/// The books among the first `n` of `bs` that match `q`.
pub open spec fn books_matching(bs: Seq<Book>, q: Seq<char>, n: int) -> Seq<Book>
    decreases n,
{
    if n <= 0 {
        seq![]
    } else {
        books_matching(bs, q, n - 1) + if book_matches(bs[n - 1], q) {
            seq![bs[n - 1]]
        } else {
            seq![]
        }
    }
}

/// The notes among the first `n` of `ns` that belong to book `b`.
pub open spec fn notes_of(ns: Seq<ReadingNote>, b: Seq<char>, n: int) -> Seq<ReadingNote>
    decreases n,
{
    if n <= 0 {
        seq![]
    } else {
        notes_of(ns, b, n - 1) + if ns[n - 1].book_id@ == b {
            seq![ns[n - 1]]
        } else {
            seq![]
        }
    }
}

/// The highlights among the first `n` of `hs` that belong to book `b`.
pub open spec fn highlights_of(hs: Seq<BookHighlight>, b: Seq<char>, n: int) -> Seq<BookHighlight>
    decreases n,
{
    if n <= 0 {
        seq![]
    } else {
        highlights_of(hs, b, n - 1) + if hs[n - 1].book_id@ == b {
            seq![hs[n - 1]]
        } else {
            seq![]
        }
    }
}

fn copy_book(b: &Book) -> (r: Book)
    ensures
        r == *b,
{
    Book {
        id: b.id.clone(),
        title: b.title.clone(),
        author: copy_opt(&b.author),
        isbn: copy_opt(&b.isbn),
        cover: copy_opt(&b.cover),
        status: b.status.clone(),
        total_pages: b.total_pages,
        current_page: b.current_page,
        rating: b.rating,
        tags: copy_opt(&b.tags),
        description: copy_opt(&b.description),
        start_date: b.start_date,
        finish_date: b.finish_date,
        created_at: b.created_at,
        updated_at: b.updated_at,
    }
}

fn copy_note(n: &ReadingNote) -> (r: ReadingNote)
    ensures
        r == *n,
{
    ReadingNote {
        id: n.id.clone(),
        book_id: n.book_id.clone(),
        chapter: copy_opt(&n.chapter),
        page_number: n.page_number,
        content: n.content.clone(),
        note_type: n.note_type.clone(),
        created_at: n.created_at,
        updated_at: n.updated_at,
    }
}

fn copy_highlight(h: &BookHighlight) -> (r: BookHighlight)
    ensures
        r == *h,
{
    BookHighlight {
        id: h.id.clone(),
        book_id: h.book_id.clone(),
        note_id: copy_opt(&h.note_id),
        text: h.text.clone(),
        page_number: h.page_number,
        color: h.color.clone(),
        notes: copy_opt(&h.notes),
        created_at: h.created_at,
    }
}

fn opt_contains_exec(o: &Option<String>, q: &Vec<char>) -> (r: bool)
    ensures
        r == opt_contains(*o, q@),
{
    match o {
        Some(s) => {
            let cs = chars_of(s.as_str());
            contains_chars(&cs, q)
        },
        None => false,
    }
}

/// `b` with the present fields of `u` applied at time `now`.
pub open spec fn book_updated(b: Book, u: BookUpdate, now: i64) -> Book {
    Book {
        id: b.id,
        title: if u.title is Some { u.title->0 } else { b.title },
        author: if u.author is Some { u.author } else { b.author },
        isbn: if u.isbn is Some { u.isbn } else { b.isbn },
        cover: if u.cover is Some { u.cover } else { b.cover },
        status: if u.status is Some { u.status->0 } else { b.status },
        total_pages: if u.total_pages is Some { u.total_pages } else { b.total_pages },
        current_page: if u.current_page is Some { u.current_page->0 } else { b.current_page },
        rating: if u.rating is Some { u.rating } else { b.rating },
        tags: if u.tags is Some { u.tags } else { b.tags },
        description: if u.description is Some { u.description } else { b.description },
        start_date: if u.start_date is Some { u.start_date } else { b.start_date },
        finish_date: if u.finish_date is Some { u.finish_date } else { b.finish_date },
        created_at: b.created_at,
        updated_at: now,
    }
}

impl BookStore {
    pub closed spec fn books(&self) -> Seq<Book> {
        self.books@
    }

    pub closed spec fn notes(&self) -> Seq<ReadingNote> {
        self.notes@
    }

    pub closed spec fn highlights(&self) -> Seq<BookHighlight> {
        self.highlights@
    }

    /// Identities are unique, and every note and highlight belongs to a stored book.
    pub closed spec fn wf(&self) -> bool {
        &&& forall|i: int, j: int| 0 <= i < j < self.books@.len() ==> self.books@[i].id@ != self.books@[j].id@
        &&& forall|i: int, j: int| 0 <= i < j < self.notes@.len() ==> self.notes@[i].id@ != self.notes@[j].id@
        &&& forall|i: int, j: int| 0 <= i < j < self.highlights@.len() ==> self.highlights@[i].id@ != self.highlights@[j].id@
        &&& forall|i: int| 0 <= i < self.notes@.len() ==> has_book(self.books@, #[trigger] self.notes@[i].book_id@)
        &&& forall|i: int| 0 <= i < self.highlights@.len() ==> has_book(self.books@, #[trigger] self.highlights@[i].book_id@)
    }

    /// An empty store.
    pub fn new() -> (r: BookStore)
        ensures
            r.wf(),
            r.books().len() == 0,
    {
        BookStore { books: Vec::new(), notes: Vec::new(), highlights: Vec::new() }
    }

    fn find_book(&self, id: &str) -> (r: Option<usize>)
        ensures
            r is None <==> !has_book(self.books@, id@),
            r matches Some(k) ==> k < self.books@.len() && self.books@[k as int].id@ == id@,
    {
        let key = id.to_owned();
        let mut k: usize = 0;
        while k < self.books.len()
            invariant
                k <= self.books@.len(),
                key@ == id@,
                forall|j: int| 0 <= j < k ==> self.books@[j].id@ != id@,
            decreases self.books@.len() - k,
        {
            if self.books[k].id == key {
                return Some(k);
            }
            k = k + 1;
        }
        None
    }

    fn find_note(&self, id: &str) -> (r: Option<usize>)
        ensures
            r is None <==> !has_note(self.notes@, id@),
            r matches Some(k) ==> k < self.notes@.len() && self.notes@[k as int].id@ == id@,
    {
        let key = id.to_owned();
        let mut k: usize = 0;
        while k < self.notes.len()
            invariant
                k <= self.notes@.len(),
                key@ == id@,
                forall|j: int| 0 <= j < k ==> self.notes@[j].id@ != id@,
            decreases self.notes@.len() - k,
        {
            if self.notes[k].id == key {
                return Some(k);
            }
            k = k + 1;
        }
        None
    }

    fn find_highlight(&self, id: &str) -> (r: Option<usize>)
        ensures
            r is None <==> !has_highlight(self.highlights@, id@),
            r matches Some(k) ==> k < self.highlights@.len() && self.highlights@[k as int].id@ == id@,
    {
        let key = id.to_owned();
        let mut k: usize = 0;
        while k < self.highlights.len()
            invariant
                k <= self.highlights@.len(),
                key@ == id@,
                forall|j: int| 0 <= j < k ==> self.highlights@[j].id@ != id@,
            decreases self.highlights@.len() - k,
        {
            if self.highlights[k].id == key {
                return Some(k);
            }
            k = k + 1;
        }
        None
    }

    /// Adds a book with the given identity at time `now`.
    pub fn insert_book(&mut self, id: String, book: BookCreate, now: i64) -> (r: Result<Book, StoreError>)
        requires
            old(self).wf(),
        ensures
            !has_book(old(self).books(), id@) ==> r is Ok,
            final(self).wf(),
            has_book(old(self).books(), id@) <==> r == Err::<Book, StoreError>(StoreError::DuplicateId),
            r is Err ==> *final(self) == *old(self),
            r matches Ok(b) ==> {
                &&& b.id == id && b.title == book.title && b.author == book.author && b.isbn == book.isbn
                &&& b.cover == book.cover && b.total_pages == book.total_pages && b.rating == book.rating
                &&& b.tags == book.tags && b.description == book.description
                &&& (book.status matches Some(s) ==> b.status == s)
                &&& (book.status is None ==> b.status@ == "wanted"@)
                &&& b.current_page == (if book.current_page is Some { book.current_page->0 } else { 0 })
                &&& b.start_date is None && b.finish_date is None
                &&& b.created_at == now && b.updated_at == now
                &&& final(self).books() == old(self).books().push(b)
                &&& final(self).notes() == old(self).notes()
                &&& final(self).highlights() == old(self).highlights()
            },
    {
        if self.find_book(id.as_str()).is_some() {
            return Err(StoreError::DuplicateId);
        }
        let status = match book.status {
            Some(s) => s,
            None => "wanted".to_owned(),
        };
        let current_page = match book.current_page {
            Some(p) => p,
            None => 0,
        };
        let b = Book {
            id,
            title: book.title,
            author: book.author,
            isbn: book.isbn,
            cover: book.cover,
            status,
            total_pages: book.total_pages,
            current_page,
            rating: book.rating,
            tags: book.tags,
            description: book.description,
            start_date: None,
            finish_date: None,
            created_at: now,
            updated_at: now,
        };
        let out = copy_book(&b);
        let ghost b0 = self.books@;
        self.books.push(b);
        proof {
            assert forall|i: int| 0 <= i < b0.len() implies #[trigger] self.books@[i].id == b0[i].id by {}
            assert forall|a: int| 0 <= a < self.notes@.len() implies has_book(self.books@, #[trigger] self.notes@[a].book_id@) by {
                let j = choose|j: int| 0 <= j < b0.len() && b0[j].id@ == self.notes@[a].book_id@;
                assert(self.books@[j] == b0[j]);
            }
            assert forall|a: int| 0 <= a < self.highlights@.len() implies has_book(self.books@, #[trigger] self.highlights@[a].book_id@) by {
                let j = choose|j: int| 0 <= j < b0.len() && b0[j].id@ == self.highlights@[a].book_id@;
                assert(self.books@[j] == b0[j]);
            }
        }
        Ok(out)
    }

    /// Adds a book with a fresh identity.
    pub fn create_book(&mut self, book: BookCreate) -> (r: Result<Book, StoreError>)
        requires
            old(self).wf(),
        ensures
            final(self).wf(),
            r is Err ==> *final(self) == *old(self),
            r matches Ok(b) ==> {
                &&& !has_book(old(self).books(), b.id@)
                &&& b.title == book.title && b.author == book.author && b.isbn == book.isbn
                &&& b.cover == book.cover && b.total_pages == book.total_pages && b.rating == book.rating
                &&& b.tags == book.tags && b.description == book.description
                &&& (book.status matches Some(s) ==> b.status == s)
                &&& (book.status is None ==> b.status@ == "wanted"@)
                &&& b.current_page == (if book.current_page is Some { book.current_page->0 } else { 0 })
                &&& b.start_date is None && b.finish_date is None && b.created_at == b.updated_at
                &&& final(self).books() == old(self).books().push(b)
                &&& final(self).notes() == old(self).notes()
                &&& final(self).highlights() == old(self).highlights()
            },
    {
        let id = new_id();
        let now = now_millis();
        self.insert_book(id, book, now)
    }

    /// The book `id`, if present.
    pub fn get_book_by_id(&self, id: &str) -> (r: Option<Book>)
        ensures
            r is Some <==> has_book(self.books(), id@),
            r matches Some(b) ==> b.id@ == id@ && self.books().contains(b),
    {
        match self.find_book(id) {
            Some(k) => {
                let b = copy_book(&self.books[k]);
                assert(self.books@[k as int] == b);
                Some(b)
            },
            None => None,
        }
    }

    /// The books with status `status` when given, all otherwise, in store order.
    pub fn get_books(&self, status: Option<&str>) -> (r: Vec<Book>)
        ensures
            r@ == books_with_status(self.books(), opt_str_view(status), self.books().len() as int),
    {
        let key: Option<String> = match status {
            Some(s) => Some(s.to_owned()),
            None => None,
        };
        let ghost sv = opt_str_view(status);
        let mut out: Vec<Book> = Vec::new();
        let mut i: usize = 0;
        while i < self.books.len()
            invariant
                i <= self.books@.len(),
                key matches Some(k) ==> sv == Some(k@),
                key is None ==> sv is None,
                out@ == books_with_status(self.books@, sv, i as int),
            decreases self.books@.len() - i,
        {
            let b = &self.books[i];
            let ok = match &key {
                Some(k) => b.status == *k,
                None => true,
            };
            if ok {
                out.push(copy_book(b));
            }
            proof {
                if ok {
                    assert(books_with_status(self.books@, sv, i + 1) =~= books_with_status(self.books@, sv, i as int).push(self.books@[i as int]));
                } else {
                    assert(books_with_status(self.books@, sv, i + 1) =~= books_with_status(self.books@, sv, i as int));
                }
            }
            i = i + 1;
        }
        out
    }

    /// The books whose title, author, description or tags hold `query`, in store order.
    pub fn search_books(&self, query: &str) -> (r: Vec<Book>)
        ensures
            r@ == books_matching(self.books(), query@, self.books().len() as int),
    {
        let q = chars_of(query);
        let mut out: Vec<Book> = Vec::new();
        let mut i: usize = 0;
        while i < self.books.len()
            invariant
                i <= self.books@.len(),
                q@ == query@,
                out@ == books_matching(self.books@, query@, i as int),
            decreases self.books@.len() - i,
        {
            let b = &self.books[i];
            let t = chars_of(b.title.as_str());
            let ok = contains_chars(&t, &q) || opt_contains_exec(&b.author, &q) || opt_contains_exec(&b.description, &q)
                || opt_contains_exec(&b.tags, &q);
            if ok {
                out.push(copy_book(b));
            }
            proof {
                if ok {
                    assert(books_matching(self.books@, query@, i + 1) =~= books_matching(self.books@, query@, i as int).push(self.books@[i as int]));
                } else {
                    assert(books_matching(self.books@, query@, i + 1) =~= books_matching(self.books@, query@, i as int));
                }
            }
            i = i + 1;
        }
        out
    }

    /// Applies the present fields of `updates` to book `id` at time `now`.
    pub fn update_book(&mut self, id: &str, updates: BookUpdate, now: i64)
        requires
            old(self).wf(),
        ensures
            final(self).wf(),
            final(self).notes() == old(self).notes(),
            final(self).highlights() == old(self).highlights(),
            final(self).books().len() == old(self).books().len(),
            forall|i: int|
                0 <= i < old(self).books().len() ==> #[trigger] final(self).books()[i] == if old(self).books()[i].id@ == id@ {
                    book_updated(old(self).books()[i], updates, now)
                } else {
                    old(self).books()[i]
                },
    {
        let k = match self.find_book(id) {
            Some(k) => k,
            None => {
                return;
            },
        };
        let ghost b0 = self.books@;
        let ghost u = updates;
        let b = &self.books[k];
        let nb = Book {
            id: b.id.clone(),
            title: match updates.title {
                Some(x) => x,
                None => b.title.clone(),
            },
            author: if updates.author.is_some() { updates.author } else { copy_opt(&b.author) },
            isbn: if updates.isbn.is_some() { updates.isbn } else { copy_opt(&b.isbn) },
            cover: if updates.cover.is_some() { updates.cover } else { copy_opt(&b.cover) },
            status: match updates.status {
                Some(x) => x,
                None => b.status.clone(),
            },
            total_pages: if updates.total_pages.is_some() { updates.total_pages } else { b.total_pages },
            current_page: match updates.current_page {
                Some(x) => x,
                None => b.current_page,
            },
            rating: if updates.rating.is_some() { updates.rating } else { b.rating },
            tags: if updates.tags.is_some() { updates.tags } else { copy_opt(&b.tags) },
            description: if updates.description.is_some() { updates.description } else { copy_opt(&b.description) },
            start_date: if updates.start_date.is_some() { updates.start_date } else { b.start_date },
            finish_date: if updates.finish_date.is_some() { updates.finish_date } else { b.finish_date },
            created_at: b.created_at,
            updated_at: now,
        };
        self.books.set(k, nb);
        proof {
            let bs = self.books@;
            assert forall|a: int| 0 <= a < b0.len() && a != k implies b0[a].id@ != id@ by {
                if a < k {
                    assert(b0[a].id@ != b0[k as int].id@);
                } else {
                    assert(b0[k as int].id@ != b0[a].id@);
                }
            }
            assert forall|a: int| 0 <= a < bs.len() implies #[trigger] bs[a].id == b0[a].id by {}
            assert forall|a: int, c: int| 0 <= a < c < bs.len() implies bs[a].id@ != bs[c].id@ by {
                assert(bs[a].id == b0[a].id && bs[c].id == b0[c].id);
            }
            assert forall|a: int| 0 <= a < self.notes@.len() implies has_book(bs, #[trigger] self.notes@[a].book_id@) by {
                let j = choose|j: int| 0 <= j < b0.len() && b0[j].id@ == self.notes@[a].book_id@;
                assert(bs[j].id == b0[j].id);
            }
            assert forall|a: int| 0 <= a < self.highlights@.len() implies has_book(bs, #[trigger] self.highlights@[a].book_id@) by {
                let j = choose|j: int| 0 <= j < b0.len() && b0[j].id@ == self.highlights@[a].book_id@;
                assert(bs[j].id == b0[j].id);
            }
        }
    }

    /// Adds a reading note with the given identity at time `now`; its book must exist.
    pub fn insert_reading_note(&mut self, id: String, note: ReadingNoteCreate, now: i64) -> (r: Result<ReadingNote, StoreError>)
        requires
            old(self).wf(),
        ensures
            has_book(old(self).books(), note.book_id@) && !has_note(old(self).notes(), id@) ==> r is Ok,
            final(self).wf(),
            !has_book(old(self).books(), note.book_id@) ==> r == Err::<ReadingNote, StoreError>(StoreError::OwnerNotFound),
            has_book(old(self).books(), note.book_id@) ==> (has_note(old(self).notes(), id@) <==> r == Err::<ReadingNote, StoreError>(StoreError::DuplicateId)),
            r is Err ==> *final(self) == *old(self),
            r matches Ok(n) ==> {
                &&& n.id == id && n.book_id == note.book_id && n.chapter == note.chapter
                &&& n.page_number == note.page_number && n.content == note.content
                &&& (note.note_type matches Some(t) ==> n.note_type == t)
                &&& (note.note_type is None ==> n.note_type@ == "note"@)
                &&& n.created_at == now && n.updated_at == now
                &&& final(self).notes() == old(self).notes().push(n)
                &&& final(self).books() == old(self).books()
            },
    {
        if self.find_book(note.book_id.as_str()).is_none() {
            return Err(StoreError::OwnerNotFound);
        }
        if self.find_note(id.as_str()).is_some() {
            return Err(StoreError::DuplicateId);
        }
        let note_type = match note.note_type {
            Some(t) => t,
            None => "note".to_owned(),
        };
        let n = ReadingNote {
            id,
            book_id: note.book_id,
            chapter: note.chapter,
            page_number: note.page_number,
            content: note.content,
            note_type,
            created_at: now,
            updated_at: now,
        };
        let out = copy_note(&n);
        let ghost n0 = self.notes@;
        self.notes.push(n);
        proof {
            assert forall|a: int| 0 <= a < self.notes@.len() implies has_book(self.books@, #[trigger] self.notes@[a].book_id@) by {
                if a < n0.len() {
                    assert(self.notes@[a] == n0[a]);
                }
            }
        }
        Ok(out)
    }

    /// Adds a reading note with a fresh identity.
    pub fn create_reading_note(&mut self, note: ReadingNoteCreate) -> (r: Result<ReadingNote, StoreError>)
        requires
            old(self).wf(),
        ensures
            final(self).wf(),
            !has_book(old(self).books(), note.book_id@) ==> r == Err::<ReadingNote, StoreError>(StoreError::OwnerNotFound),
            r is Err ==> *final(self) == *old(self),
            r matches Ok(n) ==> {
                &&& !has_note(old(self).notes(), n.id@)
                &&& n.book_id == note.book_id && n.chapter == note.chapter
                &&& n.page_number == note.page_number && n.content == note.content
                &&& (note.note_type matches Some(t) ==> n.note_type == t)
                &&& (note.note_type is None ==> n.note_type@ == "note"@)
                &&& n.created_at == n.updated_at
                &&& final(self).notes() == old(self).notes().push(n)
                &&& final(self).books() == old(self).books()
            },
    {
        let id = new_id();
        let now = now_millis();
        self.insert_reading_note(id, note, now)
    }

    /// The reading notes of book `book_id`, in store order.
    pub fn get_reading_notes(&self, book_id: &str) -> (r: Vec<ReadingNote>)
        ensures
            r@ == notes_of(self.notes(), book_id@, self.notes().len() as int),
    {
        let key = book_id.to_owned();
        let mut out: Vec<ReadingNote> = Vec::new();
        let mut i: usize = 0;
        while i < self.notes.len()
            invariant
                i <= self.notes@.len(),
                key@ == book_id@,
                out@ == notes_of(self.notes@, book_id@, i as int),
            decreases self.notes@.len() - i,
        {
            let ok = self.notes[i].book_id == key;
            if ok {
                out.push(copy_note(&self.notes[i]));
            }
            proof {
                if ok {
                    assert(notes_of(self.notes@, book_id@, i + 1) =~= notes_of(self.notes@, book_id@, i as int).push(self.notes@[i as int]));
                } else {
                    assert(notes_of(self.notes@, book_id@, i + 1) =~= notes_of(self.notes@, book_id@, i as int));
                }
            }
            i = i + 1;
        }
        out
    }

    /// Deletes reading note `id`, if present.
    pub fn delete_reading_note(&mut self, id: &str)
        requires
            old(self).wf(),
        ensures
            final(self).wf(),
            !has_note(final(self).notes(), id@),
            final(self).books() == old(self).books(),
    {
        let k = match self.find_note(id) {
            Some(k) => k,
            None => {
                return;
            },
        };
        let ghost n0 = self.notes@;
        self.notes.remove(k);
        proof {
            let ns = self.notes@;
            assert(ns == n0.remove(k as int));
            assert forall|a: int| 0 <= a < ns.len() implies has_book(self.books@, #[trigger] ns[a].book_id@) by {
                if a < k { assert(ns[a] == n0[a]); } else { assert(ns[a] == n0[a + 1]); }
            }
            assert forall|a: int, c: int| 0 <= a < c < ns.len() implies ns[a].id@ != ns[c].id@ by {
                let a0 = if a < k { a } else { a + 1 };
                let c0 = if c < k { c } else { c + 1 };
                assert(ns[a] == n0[a0] && ns[c] == n0[c0]);
            }
            assert(!has_note(ns, id@)) by {
                if has_note(ns, id@) {
                    let a = choose|a: int| 0 <= a < ns.len() && ns[a].id@ == id@;
                    let a0 = if a < k { a } else { a + 1 };
                    assert(ns[a] == n0[a0]);
                    if a0 < k { assert(n0[a0].id@ != n0[k as int].id@); } else { assert(n0[k as int].id@ != n0[a0].id@); }
                }
            }
        }
    }

    /// Adds a highlight with the given identity at time `now`; its book must exist.
    pub fn insert_book_highlight(&mut self, id: String, h: BookHighlightCreate, now: i64) -> (r: Result<BookHighlight, StoreError>)
        requires
            old(self).wf(),
        ensures
            has_book(old(self).books(), h.book_id@) && !has_highlight(old(self).highlights(), id@) ==> r is Ok,
            final(self).wf(),
            !has_book(old(self).books(), h.book_id@) ==> r == Err::<BookHighlight, StoreError>(StoreError::OwnerNotFound),
            has_book(old(self).books(), h.book_id@) ==> (has_highlight(old(self).highlights(), id@) <==> r == Err::<BookHighlight, StoreError>(StoreError::DuplicateId)),
            r is Err ==> *final(self) == *old(self),
            r matches Ok(x) ==> {
                &&& x.id == id && x.book_id == h.book_id && x.note_id == h.note_id && x.text == h.text
                &&& x.page_number == h.page_number && x.notes == h.notes && x.created_at == now
                &&& (h.color matches Some(c) ==> x.color == c)
                &&& (h.color is None ==> x.color@ == "yellow"@)
                &&& final(self).highlights() == old(self).highlights().push(x)
                &&& final(self).books() == old(self).books()
            },
    {
        if self.find_book(h.book_id.as_str()).is_none() {
            return Err(StoreError::OwnerNotFound);
        }
        if self.find_highlight(id.as_str()).is_some() {
            return Err(StoreError::DuplicateId);
        }
        let color = match h.color {
            Some(c) => c,
            None => "yellow".to_owned(),
        };
        let x = BookHighlight {
            id,
            book_id: h.book_id,
            note_id: h.note_id,
            text: h.text,
            page_number: h.page_number,
            color,
            notes: h.notes,
            created_at: now,
        };
        let out = copy_highlight(&x);
        let ghost h0 = self.highlights@;
        self.highlights.push(x);
        proof {
            assert forall|a: int| 0 <= a < self.highlights@.len() implies has_book(self.books@, #[trigger] self.highlights@[a].book_id@) by {
                if a < h0.len() {
                    assert(self.highlights@[a] == h0[a]);
                }
            }
        }
        Ok(out)
    }

    /// Adds a highlight with a fresh identity.
    pub fn create_book_highlight(&mut self, h: BookHighlightCreate) -> (r: Result<BookHighlight, StoreError>)
        requires
            old(self).wf(),
        ensures
            final(self).wf(),
            !has_book(old(self).books(), h.book_id@) ==> r == Err::<BookHighlight, StoreError>(StoreError::OwnerNotFound),
            r is Err ==> *final(self) == *old(self),
            r matches Ok(x) ==> {
                &&& !has_highlight(old(self).highlights(), x.id@)
                &&& x.book_id == h.book_id && x.note_id == h.note_id && x.text == h.text
                &&& x.page_number == h.page_number && x.notes == h.notes
                &&& (h.color matches Some(c) ==> x.color == c)
                &&& (h.color is None ==> x.color@ == "yellow"@)
                &&& final(self).highlights() == old(self).highlights().push(x)
                &&& final(self).books() == old(self).books()
            },
    {
        let id = new_id();
        let now = now_millis();
        self.insert_book_highlight(id, h, now)
    }

    /// The highlights of book `book_id`, in store order.
    pub fn get_book_highlights(&self, book_id: &str) -> (r: Vec<BookHighlight>)
        ensures
            r@ == highlights_of(self.highlights(), book_id@, self.highlights().len() as int),
    {
        let key = book_id.to_owned();
        let mut out: Vec<BookHighlight> = Vec::new();
        let mut i: usize = 0;
        while i < self.highlights.len()
            invariant
                i <= self.highlights@.len(),
                key@ == book_id@,
                out@ == highlights_of(self.highlights@, book_id@, i as int),
            decreases self.highlights@.len() - i,
        {
            let ok = self.highlights[i].book_id == key;
            if ok {
                out.push(copy_highlight(&self.highlights[i]));
            }
            proof {
                if ok {
                    assert(highlights_of(self.highlights@, book_id@, i + 1) =~= highlights_of(self.highlights@, book_id@, i as int).push(self.highlights@[i as int]));
                } else {
                    assert(highlights_of(self.highlights@, book_id@, i + 1) =~= highlights_of(self.highlights@, book_id@, i as int));
                }
            }
            i = i + 1;
        }
        out
    }

    /// Deletes highlight `id`, if present.
    pub fn delete_book_highlight(&mut self, id: &str)
        requires
            old(self).wf(),
        ensures
            final(self).wf(),
            !has_highlight(final(self).highlights(), id@),
            final(self).books() == old(self).books(),
    {
        let k = match self.find_highlight(id) {
            Some(k) => k,
            None => {
                return;
            },
        };
        let ghost h0 = self.highlights@;
        self.highlights.remove(k);
        proof {
            let hs = self.highlights@;
            assert(hs == h0.remove(k as int));
            assert forall|a: int| 0 <= a < hs.len() implies has_book(self.books@, #[trigger] hs[a].book_id@) by {
                if a < k { assert(hs[a] == h0[a]); } else { assert(hs[a] == h0[a + 1]); }
            }
            assert forall|a: int, c: int| 0 <= a < c < hs.len() implies hs[a].id@ != hs[c].id@ by {
                let a0 = if a < k { a } else { a + 1 };
                let c0 = if c < k { c } else { c + 1 };
                assert(hs[a] == h0[a0] && hs[c] == h0[c0]);
            }
            assert(!has_highlight(hs, id@)) by {
                if has_highlight(hs, id@) {
                    let a = choose|a: int| 0 <= a < hs.len() && hs[a].id@ == id@;
                    let a0 = if a < k { a } else { a + 1 };
                    assert(hs[a] == h0[a0]);
                    if a0 < k { assert(h0[a0].id@ != h0[k as int].id@); } else { assert(h0[k as int].id@ != h0[a0].id@); }
                }
            }
        }
    }

    /// Deletes book `id` together with its reading notes and highlights.
    pub fn delete_book(&mut self, id: &str)
        requires
            old(self).wf(),
        ensures
            final(self).wf(),
            !has_book(final(self).books(), id@),
            forall|b: Book| #[trigger] final(self).books().contains(b) <==> old(self).books().contains(b) && b.id@ != id@,
            forall|n: ReadingNote| #[trigger] final(self).notes().contains(n) <==> old(self).notes().contains(n) && n.book_id@ != id@,
            forall|h: BookHighlight| #[trigger] final(self).highlights().contains(h) <==> old(self).highlights().contains(h) && h.book_id@ != id@,
    {
        let key = id.to_owned();
        let ghost b0 = self.books@;
        let ghost n0 = self.notes@;
        let ghost h0 = self.highlights@;
        let mut kn: Vec<ReadingNote> = Vec::new();
        let ghost mut nidx: Seq<int> = seq![];
        let mut i: usize = 0;
        while i < self.notes.len()
            invariant
                i <= n0.len(),
                self.notes@ == n0,
                key@ == id@,
                nidx.len() == kn@.len(),
                forall|a: int| 0 <= a < nidx.len() ==> 0 <= #[trigger] nidx[a] < i && kn@[a] == n0[nidx[a]],
                forall|a: int, c: int| 0 <= a < c < nidx.len() ==> nidx[a] < nidx[c],
                forall|a: int| 0 <= a < kn@.len() ==> (#[trigger] kn@[a]).book_id@ != id@,
                forall|q: int| 0 <= q < i && (#[trigger] n0[q]).book_id@ != id@ ==> kn@.contains(n0[q]),
            decreases n0.len() - i,
        {
            if !(self.notes[i].book_id == key) {
                let ghost before = kn@;
                kn.push(copy_note(&self.notes[i]));
                proof {
                    nidx = nidx.push(i as int);
                    assert forall|q: int| 0 <= q < i + 1 && (#[trigger] n0[q]).book_id@ != id@ implies kn@.contains(n0[q]) by {
                        if q < i {
                            let a = choose|a: int| 0 <= a < before.len() && before[a] == n0[q];
                            assert(kn@[a] == before[a]);
                        } else {
                            assert(kn@[before.len() as int] == n0[q]);
                        }
                    }
                }
            }
            i = i + 1;
        }
        let mut kh: Vec<BookHighlight> = Vec::new();
        let ghost mut hidx: Seq<int> = seq![];
        let mut i: usize = 0;
        while i < self.highlights.len()
            invariant
                i <= h0.len(),
                self.highlights@ == h0,
                key@ == id@,
                hidx.len() == kh@.len(),
                forall|a: int| 0 <= a < hidx.len() ==> 0 <= #[trigger] hidx[a] < i && kh@[a] == h0[hidx[a]],
                forall|a: int, c: int| 0 <= a < c < hidx.len() ==> hidx[a] < hidx[c],
                forall|a: int| 0 <= a < kh@.len() ==> (#[trigger] kh@[a]).book_id@ != id@,
                forall|q: int| 0 <= q < i && (#[trigger] h0[q]).book_id@ != id@ ==> kh@.contains(h0[q]),
            decreases h0.len() - i,
        {
            if !(self.highlights[i].book_id == key) {
                let ghost before = kh@;
                kh.push(copy_highlight(&self.highlights[i]));
                proof {
                    hidx = hidx.push(i as int);
                    assert forall|q: int| 0 <= q < i + 1 && (#[trigger] h0[q]).book_id@ != id@ implies kh@.contains(h0[q]) by {
                        if q < i {
                            let a = choose|a: int| 0 <= a < before.len() && before[a] == h0[q];
                            assert(kh@[a] == before[a]);
                        } else {
                            assert(kh@[before.len() as int] == h0[q]);
                        }
                    }
                }
            }
            i = i + 1;
        }
        let mut kb: Vec<Book> = Vec::new();
        let ghost mut bidx: Seq<int> = seq![];
        let mut i: usize = 0;
        while i < self.books.len()
            invariant
                i <= b0.len(),
                self.books@ == b0,
                key@ == id@,
                bidx.len() == kb@.len(),
                forall|a: int| 0 <= a < bidx.len() ==> 0 <= #[trigger] bidx[a] < i && kb@[a] == b0[bidx[a]],
                forall|a: int, c: int| 0 <= a < c < bidx.len() ==> bidx[a] < bidx[c],
                forall|a: int| 0 <= a < kb@.len() ==> (#[trigger] kb@[a]).id@ != id@,
                forall|q: int| 0 <= q < i && (#[trigger] b0[q]).id@ != id@ ==> kb@.contains(b0[q]),
            decreases b0.len() - i,
        {
            if !(self.books[i].id == key) {
                let ghost before = kb@;
                kb.push(copy_book(&self.books[i]));
                proof {
                    bidx = bidx.push(i as int);
                    assert forall|q: int| 0 <= q < i + 1 && (#[trigger] b0[q]).id@ != id@ implies kb@.contains(b0[q]) by {
                        if q < i {
                            let a = choose|a: int| 0 <= a < before.len() && before[a] == b0[q];
                            assert(kb@[a] == before[a]);
                        } else {
                            assert(kb@[before.len() as int] == b0[q]);
                        }
                    }
                }
            }
            i = i + 1;
        }
        self.notes = kn;
        self.highlights = kh;
        self.books = kb;
        proof {
            let (bs, ns, hs) = (self.books@, self.notes@, self.highlights@);
            assert forall|b: Book| #[trigger] bs.contains(b) <==> b0.contains(b) && b.id@ != id@ by {
                if bs.contains(b) {
                    let a = choose|a: int| 0 <= a < bs.len() && bs[a] == b;
                    assert(b0[bidx[a]] == b);
                }
                if b0.contains(b) && b.id@ != id@ {
                    let q = choose|q: int| 0 <= q < b0.len() && b0[q] == b;
                }
            }
            assert forall|n: ReadingNote| #[trigger] ns.contains(n) <==> n0.contains(n) && n.book_id@ != id@ by {
                if ns.contains(n) {
                    let a = choose|a: int| 0 <= a < ns.len() && ns[a] == n;
                    assert(n0[nidx[a]] == n);
                }
                if n0.contains(n) && n.book_id@ != id@ {
                    let q = choose|q: int| 0 <= q < n0.len() && n0[q] == n;
                }
            }
            assert forall|h: BookHighlight| #[trigger] hs.contains(h) <==> h0.contains(h) && h.book_id@ != id@ by {
                if hs.contains(h) {
                    let a = choose|a: int| 0 <= a < hs.len() && hs[a] == h;
                    assert(h0[hidx[a]] == h);
                }
                if h0.contains(h) && h.book_id@ != id@ {
                    let q = choose|q: int| 0 <= q < h0.len() && h0[q] == h;
                }
            }
            assert forall|a: int, c: int| 0 <= a < c < bs.len() implies bs[a].id@ != bs[c].id@ by {
                assert(bs[a] == b0[bidx[a]] && bs[c] == b0[bidx[c]]);
            }
            assert forall|a: int, c: int| 0 <= a < c < ns.len() implies ns[a].id@ != ns[c].id@ by {
                assert(ns[a] == n0[nidx[a]] && ns[c] == n0[nidx[c]]);
            }
            assert forall|a: int, c: int| 0 <= a < c < hs.len() implies hs[a].id@ != hs[c].id@ by {
                assert(hs[a] == h0[hidx[a]] && hs[c] == h0[hidx[c]]);
            }
            assert forall|a: int| 0 <= a < ns.len() implies has_book(bs, #[trigger] ns[a].book_id@) by {
                let n = ns[a];
                assert(n == n0[nidx[a]]);
                assert(has_book(b0, n.book_id@));
                let q = choose|q: int| 0 <= q < b0.len() && b0[q].id@ == n.book_id@;
                assert(bs.contains(b0[q]));
                let c = choose|c: int| 0 <= c < bs.len() && bs[c] == b0[q];
            }
            assert forall|a: int| 0 <= a < hs.len() implies has_book(bs, #[trigger] hs[a].book_id@) by {
                let h = hs[a];
                assert(h == h0[hidx[a]]);
                assert(has_book(b0, h.book_id@));
                let q = choose|q: int| 0 <= q < b0.len() && b0[q].id@ == h.book_id@;
                assert(bs.contains(b0[q]));
                let c = choose|c: int| 0 <= c < bs.len() && bs[c] == b0[q];
            }
            assert(!has_book(bs, id@)) by {
                if has_book(bs, id@) {
                    let c = choose|c: int| 0 <= c < bs.len() && bs[c].id@ == id@;
                    assert(bs.contains(bs[c]));
                }
            }
        }
    }
}

} // verus!
