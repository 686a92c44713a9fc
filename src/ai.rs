//! Stored AI conversations and their messages. A conversation owns its
//! messages: deleting it deletes them, and a message can only be saved into
//! an existing conversation.
use vstd::prelude::*;
use crate::chars::{chars_of, copy_opt};
use crate::cardbox::contains_chars;
use crate::error::StoreError;
use crate::habits::{lex_le, lex_le_exec};
use crate::knowledge::{contains_folded, fold, fold_chars};

verus! {

/// A conversation with an AI provider.
pub struct AiConversation {
    pub id: String,
    pub title: String,
    pub provider: String,
    pub model: String,
    pub created_at: String,
    pub updated_at: String,
}

/// A message of a conversation; `role` is `user`, `assistant` or `system`.
pub struct AiMessage {
    pub id: String,
    pub conversation_id: String,
    pub role: String,
    pub content: String,
    pub provider: Option<String>,
    pub model: Option<String>,
    pub error: bool,
    pub timestamp: i64,
    pub created_at: String,
}

/// A conversation to save.
pub struct SaveConversationRequest {
    pub id: String,
    pub title: String,
    pub provider: String,
    pub model: String,
    pub created_at: String,
    pub updated_at: String,
}

/// A message to save.
pub struct SaveMessageRequest {
    pub id: String,
    pub conversation_id: String,
    pub role: String,
    pub content: String,
    pub provider: Option<String>,
    pub model: Option<String>,
    pub error: bool,
    pub timestamp: i64,
    pub created_at: String,
}

/// A page of conversations with the number of conversations on it.
pub struct ConversationListResponse {
    pub conversations: Vec<AiConversation>,
    pub total: usize,
}

/// A conversation with its messages in time order.
pub struct ConversationDetailResponse {
    pub conversation: AiConversation,
    pub messages: Vec<AiMessage>,
}

impl SaveConversationRequest {
    /// The conversation this request saves.
    pub fn into_conversation(self) -> (r: AiConversation)
        ensures
            r == (AiConversation {
                id: self.id,
                title: self.title,
                provider: self.provider,
                model: self.model,
                created_at: self.created_at,
                updated_at: self.updated_at,
            }),
    {
        AiConversation {
            id: self.id,
            title: self.title,
            provider: self.provider,
            model: self.model,
            created_at: self.created_at,
            updated_at: self.updated_at,
        }
    }
}

impl SaveMessageRequest {
    /// The message this request saves.
    pub open spec fn into_message_spec(self) -> AiMessage {
        AiMessage {
            id: self.id,
            conversation_id: self.conversation_id,
            role: self.role,
            content: self.content,
            provider: self.provider,
            model: self.model,
            error: self.error,
            timestamp: self.timestamp,
            created_at: self.created_at,
        }
    }

    /// The message this request saves.
    pub fn into_message(self) -> (r: AiMessage)
        ensures
            r == self.into_message_spec(),
    {
        AiMessage {
            id: self.id,
            conversation_id: self.conversation_id,
            role: self.role,
            content: self.content,
            provider: self.provider,
            model: self.model,
            error: self.error,
            timestamp: self.timestamp,
            created_at: self.created_at,
        }
    }
}

/// Conversations and messages.
pub struct AiStore {
    conversations: Vec<AiConversation>,
    messages: Vec<AiMessage>,
}

pub open spec fn has_conversation(cs: Seq<AiConversation>, id: Seq<char>) -> bool {
    exists|j: int| 0 <= j < cs.len() && cs[j].id@ == id
}

pub open spec fn has_message(ms: Seq<AiMessage>, id: Seq<char>) -> bool {
    exists|j: int| 0 <= j < ms.len() && ms[j].id@ == id
}

/// `ms` is in time order.
pub open spec fn by_time(ms: Seq<AiMessage>) -> bool {
    forall|a: int, b: int| 0 <= a < b < ms.len() ==> ms[a].timestamp <= ms[b].timestamp
}

/// `q` occurs, ignoring ASCII case, in the title of `c` or in the content of
/// one of its messages in `ms`.
pub open spec fn conversation_found(c: AiConversation, ms: Seq<AiMessage>, q: Seq<char>) -> bool {
    contains_folded(c.title@, q) || exists|j: int|
        0 <= j < ms.len() && ms[j].conversation_id@ == c.id@ && contains_folded(#[trigger] ms[j].content@, q)
}

/// The conversations among the first `n` of `cs` that a search for `q` finds.
pub open spec fn conversations_found(cs: Seq<AiConversation>, ms: Seq<AiMessage>, q: Seq<char>, n: int) -> Seq<AiConversation>
    decreases n,
{
    if n <= 0 {
        seq![]
    } else {
        conversations_found(cs, ms, q, n - 1) + if conversation_found(cs[n - 1], ms, q) {
            seq![cs[n - 1]]
        } else {
            seq![]
        }
    }
}

/// Conversation `id` of `cs` was last updated before `cutoff`.
pub open spec fn expired(cs: Seq<AiConversation>, id: Seq<char>, cutoff: Seq<char>) -> bool {
    exists|j: int| 0 <= j < cs.len() && cs[j].id@ == id && !lex_le(cutoff, #[trigger] cs[j].updated_at@)
}

fn copy_conversation(c: &AiConversation) -> (r: AiConversation)
    ensures
        r == *c,
{
    AiConversation {
        id: c.id.clone(),
        title: c.title.clone(),
        provider: c.provider.clone(),
        model: c.model.clone(),
        created_at: c.created_at.clone(),
        updated_at: c.updated_at.clone(),
    }
}

fn copy_message(m: &AiMessage) -> (r: AiMessage)
    ensures
        r == *m,
{
    AiMessage {
        id: m.id.clone(),
        conversation_id: m.conversation_id.clone(),
        role: m.role.clone(),
        content: m.content.clone(),
        provider: copy_opt(&m.provider),
        model: copy_opt(&m.model),
        error: m.error,
        timestamp: m.timestamp,
        created_at: m.created_at.clone(),
    }
}

/// The messages of `v` in time order; equal times keep their order.
pub fn sort_messages(v: Vec<AiMessage>) -> (r: Vec<AiMessage>)
    ensures
        by_time(r@),
        r@.len() == v@.len(),
        forall|m: AiMessage| #[trigger] r@.contains(m) <==> v@.contains(m),
{
    let mut out: Vec<AiMessage> = Vec::new();
    let mut i: usize = 0;
    while i < v.len()
        invariant
            i <= v@.len(),
            out@.len() == i,
            by_time(out@),
            forall|m: AiMessage| #[trigger] out@.contains(m) <==> exists|q: int| 0 <= q < i && v@[q] == m,
        decreases v@.len() - i,
    {
        let x = copy_message(&v[i]);
        let mut pos: usize = 0;
        while pos < out.len() && out[pos].timestamp <= x.timestamp
            invariant
                pos <= out@.len(),
                forall|a: int| 0 <= a < pos ==> out@[a].timestamp <= x.timestamp,
            decreases out@.len() - pos,
        {
            pos = pos + 1;
        }
        let ghost before = out@;
        out.insert(pos, x);
        proof {
            assert(out@ == before.insert(pos as int, x));
            assert forall|a: int, b: int| 0 <= a < b < out@.len() implies out@[a].timestamp <= out@[b].timestamp by {
                if pos < before.len() {
                    assert(before[pos as int].timestamp > x.timestamp);
                }
                if a < pos && b > pos {
                    assert(out@[b] == before[b - 1]);
                } else if a == pos && b > pos {
                    assert(out@[b] == before[b - 1]);
                    assert(before[pos as int].timestamp <= before[b - 1].timestamp);
                } else if a > pos {
                    assert(out@[a] == before[a - 1]);
                    assert(out@[b] == before[b - 1]);
                }
            }
            assert forall|m: AiMessage| #[trigger] out@.contains(m) <==> exists|q: int| 0 <= q < i + 1 && v@[q] == m by {
                if out@.contains(m) {
                    let a = choose|a: int| 0 <= a < out@.len() && out@[a] == m;
                    if a < pos {
                        assert(before[a] == m);
                    } else if a > pos {
                        assert(before[a - 1] == m);
                    }
                    if a != pos {
                        assert(before.contains(m));
                        let q = choose|q: int| 0 <= q < i && v@[q] == m;
                        assert(0 <= q < i + 1 && v@[q] == m);
                    } else {
                        assert(v@[i as int] == m);
                    }
                }
                if exists|q: int| 0 <= q < i + 1 && v@[q] == m {
                    let q = choose|q: int| 0 <= q < i + 1 && v@[q] == m;
                    if q < i {
                        assert(exists|q2: int| 0 <= q2 < i && v@[q2] == m);
                        assert(before.contains(m));
                        let a = choose|a: int| 0 <= a < before.len() && before[a] == m;
                        if a < pos {
                            assert(out@[a] == m);
                        } else {
                            assert(out@[a + 1] == m);
                        }
                    } else {
                        assert(out@[pos as int] == m);
                    }
                }
            }
        }
        i = i + 1;
    }
    assert forall|m: AiMessage| #[trigger] out@.contains(m) <==> v@.contains(m) by {
        if v@.contains(m) {
            let q = choose|q: int| 0 <= q < v@.len() && v@[q] == m;
        }
    }
    out
}

impl AiStore {
    pub closed spec fn conversations(&self) -> Seq<AiConversation> {
        self.conversations@
    }

    pub closed spec fn messages(&self) -> Seq<AiMessage> {
        self.messages@
    }

    /// Identities are unique and every message belongs to a stored conversation.
    pub closed spec fn wf(&self) -> bool {
        &&& forall|i: int, j: int|
            0 <= i < j < self.conversations@.len() ==> self.conversations@[i].id@ != self.conversations@[j].id@
        &&& forall|i: int, j: int| 0 <= i < j < self.messages@.len() ==> self.messages@[i].id@ != self.messages@[j].id@
        &&& forall|i: int|
            0 <= i < self.messages@.len() ==> has_conversation(self.conversations@, #[trigger] self.messages@[i].conversation_id@)
    }

    /// An empty store.
    pub fn new() -> (r: AiStore)
        ensures
            r.wf(),
            r.conversations().len() == 0,
            r.messages().len() == 0,
    {
        AiStore { conversations: Vec::new(), messages: Vec::new() }
    }

    fn find_conversation(&self, id: &str) -> (r: Option<usize>)
        ensures
            r is None <==> !has_conversation(self.conversations@, id@),
            r matches Some(k) ==> k < self.conversations@.len() && self.conversations@[k as int].id@ == id@,
    {
        let key = id.to_owned();
        let mut k: usize = 0;
        while k < self.conversations.len()
            invariant
                k <= self.conversations@.len(),
                key@ == id@,
                forall|j: int| 0 <= j < k ==> self.conversations@[j].id@ != id@,
            decreases self.conversations@.len() - k,
        {
            if self.conversations[k].id == key {
                return Some(k);
            }
            k = k + 1;
        }
        None
    }

    fn find_message(&self, id: &str) -> (r: Option<usize>)
        ensures
            r is None <==> !has_message(self.messages@, id@),
            r matches Some(k) ==> k < self.messages@.len() && self.messages@[k as int].id@ == id@,
    {
        let key = id.to_owned();
        let mut k: usize = 0;
        while k < self.messages.len()
            invariant
                k <= self.messages@.len(),
                key@ == id@,
                forall|j: int| 0 <= j < k ==> self.messages@[j].id@ != id@,
            decreases self.messages@.len() - k,
        {
            if self.messages[k].id == key {
                return Some(k);
            }
            k = k + 1;
        }
        None
    }

    /// Saves `c`, replacing the stored conversation with its identity if any.
    pub fn save_ai_conversation(&mut self, c: AiConversation)
        requires
            old(self).wf(),
        ensures
            final(self).wf(),
            final(self).messages() == old(self).messages(),
            final(self).conversations().contains(c),
            forall|x: AiConversation|
                #[trigger] final(self).conversations().contains(x) <==> x == c || (old(self).conversations().contains(x)
                    && x.id@ != c.id@),
    {
        let ghost c0 = self.conversations@;
        let ghost cv = c;
        match self.find_conversation(c.id.as_str()) {
            Some(k) => {
                self.conversations.set(k, c);
                proof {
                    let cs = self.conversations@;
                    assert(cs == c0.update(k as int, cv));
                    assert forall|a: int, b: int| 0 <= a < b < cs.len() implies cs[a].id@ != cs[b].id@ by {
                        assert(cs[a].id@ == c0[a].id@ && cs[b].id@ == c0[b].id@);
                    }
                    assert forall|a: int| 0 <= a < self.messages@.len() implies has_conversation(cs, #[trigger] self.messages@[a].conversation_id@) by {
                        let j = choose|j: int| 0 <= j < c0.len() && c0[j].id@ == self.messages@[a].conversation_id@;
                        assert(cs[j].id@ == c0[j].id@);
                    }
                    assert(cs[k as int] == cv);
                    assert forall|x: AiConversation| #[trigger] cs.contains(x) <==> x == cv || (c0.contains(x) && x.id@ != cv.id@) by {
                        if cs.contains(x) {
                            let a = choose|a: int| 0 <= a < cs.len() && cs[a] == x;
                            if a != k {
                                assert(c0[a] == x);
                                if a < k {
                                    assert(c0[a].id@ != c0[k as int].id@);
                                } else {
                                    assert(c0[k as int].id@ != c0[a].id@);
                                }
                            }
                        }
                        if c0.contains(x) && x.id@ != cv.id@ {
                            let a = choose|a: int| 0 <= a < c0.len() && c0[a] == x;
                            assert(a != k);
                            assert(cs[a] == x);
                        }
                    }
                }
            },
            None => {
                self.conversations.push(c);
                proof {
                    let cs = self.conversations@;
                    assert(cs == c0.push(cv));
                    assert forall|a: int| 0 <= a < self.messages@.len() implies has_conversation(cs, #[trigger] self.messages@[a].conversation_id@) by {
                        let j = choose|j: int| 0 <= j < c0.len() && c0[j].id@ == self.messages@[a].conversation_id@;
                        assert(cs[j] == c0[j]);
                    }
                    assert(cs[c0.len() as int] == cv);
                    assert forall|x: AiConversation| #[trigger] cs.contains(x) <==> x == cv || (c0.contains(x) && x.id@ != cv.id@) by {
                        if cs.contains(x) {
                            let a = choose|a: int| 0 <= a < cs.len() && cs[a] == x;
                            if a < c0.len() {
                                assert(c0[a] == x);
                            }
                        }
                        if c0.contains(x) && x.id@ != cv.id@ {
                            let a = choose|a: int| 0 <= a < c0.len() && c0[a] == x;
                            assert(cs[a] == x);
                        }
                    }
                }
            },
        }
    }

    /// Saves `m` into its conversation, replacing the stored message with its
    /// identity if any; the conversation must exist.
    pub fn save_ai_message(&mut self, m: AiMessage) -> (r: Result<(), StoreError>)
        requires
            old(self).wf(),
        ensures
            final(self).wf(),
            !has_conversation(old(self).conversations(), m.conversation_id@) <==> r is Err,
            r is Err ==> r == Err::<(), StoreError>(StoreError::OwnerNotFound) && *final(self) == *old(self),
            r is Ok ==> {
                &&& final(self).conversations() == old(self).conversations()
                &&& final(self).messages().contains(m)
                &&& forall|x: AiMessage|
                    #[trigger] final(self).messages().contains(x) <==> x == m || (old(self).messages().contains(x) && x.id@ != m.id@)
            },
    {
        if self.find_conversation(m.conversation_id.as_str()).is_none() {
            return Err(StoreError::OwnerNotFound);
        }
        let ghost m0 = self.messages@;
        let ghost mv = m;
        match self.find_message(m.id.as_str()) {
            Some(k) => {
                self.messages.set(k, m);
                proof {
                    let ms = self.messages@;
                    assert(ms == m0.update(k as int, mv));
                    assert forall|a: int, b: int| 0 <= a < b < ms.len() implies ms[a].id@ != ms[b].id@ by {
                        assert(ms[a].id@ == m0[a].id@ && ms[b].id@ == m0[b].id@);
                    }
                    assert forall|a: int| 0 <= a < ms.len() implies has_conversation(self.conversations@, #[trigger] ms[a].conversation_id@) by {
                        if a != k {
                            assert(ms[a] == m0[a]);
                        }
                    }
                    assert(ms[k as int] == mv);
                    assert forall|x: AiMessage| #[trigger] ms.contains(x) <==> x == mv || (m0.contains(x) && x.id@ != mv.id@) by {
                        if ms.contains(x) {
                            let a = choose|a: int| 0 <= a < ms.len() && ms[a] == x;
                            if a != k {
                                assert(m0[a] == x);
                                if a < k {
                                    assert(m0[a].id@ != m0[k as int].id@);
                                } else {
                                    assert(m0[k as int].id@ != m0[a].id@);
                                }
                            }
                        }
                        if m0.contains(x) && x.id@ != mv.id@ {
                            let a = choose|a: int| 0 <= a < m0.len() && m0[a] == x;
                            assert(a != k);
                            assert(ms[a] == x);
                        }
                    }
                }
            },
            None => {
                self.messages.push(m);
                proof {
                    let ms = self.messages@;
                    assert(ms == m0.push(mv));
                    assert forall|a: int| 0 <= a < ms.len() implies has_conversation(self.conversations@, #[trigger] ms[a].conversation_id@) by {
                        if a < m0.len() {
                            assert(ms[a] == m0[a]);
                        }
                    }
                    assert(ms[m0.len() as int] == mv);
                    assert forall|x: AiMessage| #[trigger] ms.contains(x) <==> x == mv || (m0.contains(x) && x.id@ != mv.id@) by {
                        if ms.contains(x) {
                            let a = choose|a: int| 0 <= a < ms.len() && ms[a] == x;
                            if a < m0.len() {
                                assert(m0[a] == x);
                            }
                        }
                        if m0.contains(x) && x.id@ != mv.id@ {
                            let a = choose|a: int| 0 <= a < m0.len() && m0[a] == x;
                            assert(ms[a] == x);
                        }
                    }
                }
            },
        }
        Ok(())
    }

    /// The messages of conversation `conversation_id`, in time order.
    pub fn get_ai_messages(&self, conversation_id: &str) -> (r: Vec<AiMessage>)
        ensures
            by_time(r@),
            forall|m: AiMessage| #[trigger] r@.contains(m) <==> self.messages().contains(m) && m.conversation_id@ == conversation_id@,
    {
        let key = conversation_id.to_owned();
        let mut out: Vec<AiMessage> = Vec::new();
        let mut i: usize = 0;
        while i < self.messages.len()
            invariant
                i <= self.messages@.len(),
                key@ == conversation_id@,
                forall|m: AiMessage| #[trigger] out@.contains(m) <==> (exists|q: int| 0 <= q < i && self.messages@[q] == m) && m.conversation_id@ == conversation_id@,
            decreases self.messages@.len() - i,
        {
            let ghost before = out@;
            if self.messages[i].conversation_id == key {
                out.push(copy_message(&self.messages[i]));
            }
            proof {
                assert forall|x: AiMessage| #[trigger] out@.contains(x) <==> (exists|q: int| 0 <= q < i + 1 && self.messages@[q] == x) && x.conversation_id@ == conversation_id@ by {
                    if out@.contains(x) {
                        let a = choose|a: int| 0 <= a < out@.len() && out@[a] == x;
                        if a < before.len() {
                            assert(before[a] == x);
                            assert(before.contains(x));
                            let q = choose|q: int| 0 <= q < i && self.messages@[q] == x;
                            assert(0 <= q < i + 1 && self.messages@[q] == x);
                        } else {
                            assert(self.messages@[i as int] == x);
                        }
                    }
                    if (exists|q: int| 0 <= q < i + 1 && self.messages@[q] == x) && x.conversation_id@ == conversation_id@ {
                        let q = choose|q: int| 0 <= q < i + 1 && self.messages@[q] == x;
                        if q < i {
                            assert(before.contains(x));
                            let a = choose|a: int| 0 <= a < before.len() && before[a] == x;
                            assert(out@[a] == x);
                        } else {
                            assert(out@[before.len() as int] == x);
                        }
                    }
                }
            }
            i = i + 1;
        }
        proof {
            assert forall|m: AiMessage| #[trigger] out@.contains(m) <==> self.messages@.contains(m) && m.conversation_id@ == conversation_id@ by {
                if self.messages@.contains(m) {
                    let q = choose|q: int| 0 <= q < self.messages@.len() && self.messages@[q] == m;
                }
            }
        }
        sort_messages(out)
    }

    /// The conversation `id` with its messages in time order, if it exists.
    pub fn get_ai_conversation_detail(&self, id: &str) -> (r: Option<ConversationDetailResponse>)
        ensures
            r is Some <==> has_conversation(self.conversations(), id@),
            r matches Some(d) ==> {
                &&& self.conversations().contains(d.conversation) && d.conversation.id@ == id@
                &&& by_time(d.messages@)
                &&& forall|m: AiMessage| #[trigger] d.messages@.contains(m) <==> self.messages().contains(m) && m.conversation_id@ == id@
            },
    {
        match self.find_conversation(id) {
            Some(k) => {
                let c = copy_conversation(&self.conversations[k]);
                assert(self.conversations@[k as int] == c);
                let messages = self.get_ai_messages(id);
                Some(ConversationDetailResponse { conversation: c, messages })
            },
            None => None,
        }
    }

    /// Up to `limit` conversations (all when no limit), in store order, with their number.
    pub fn get_ai_conversations(&self, limit: Option<usize>) -> (r: ConversationListResponse)
        ensures
            r.total == r.conversations@.len(),
            r.conversations@ == self.conversations().take(match limit {
                Some(l) => if l < self.conversations().len() { l as int } else { self.conversations().len() as int },
                None => self.conversations().len() as int,
            }),
    {
        let n: usize = match limit {
            Some(l) => if l < self.conversations.len() { l } else { self.conversations.len() },
            None => self.conversations.len(),
        };
        let mut out: Vec<AiConversation> = Vec::new();
        let mut i: usize = 0;
        while i < n
            invariant
                i <= n,
                n <= self.conversations@.len(),
                out@ == self.conversations@.take(i as int),
            decreases n - i,
        {
            out.push(copy_conversation(&self.conversations[i]));
            i = i + 1;
            assert(self.conversations@.take(i as int) =~= self.conversations@.take(i - 1).push(self.conversations@[i - 1]));
        }
        let total = out.len();
        ConversationListResponse { conversations: out, total }
    }

    /// Sets the title of conversation `id` at time `now`.
    pub fn update_ai_conversation_title(&mut self, id: &str, title: String, now: String)
        requires
            old(self).wf(),
        ensures
            final(self).wf(),
            final(self).messages() == old(self).messages(),
            final(self).conversations().len() == old(self).conversations().len(),
            forall|i: int|
                0 <= i < old(self).conversations().len() ==> #[trigger] final(self).conversations()[i] == if old(self).conversations()[i].id@ == id@ {
                    AiConversation { title: title, updated_at: now, ..old(self).conversations()[i] }
                } else {
                    old(self).conversations()[i]
                },
    {
        match self.find_conversation(id) {
            Some(k) => {
                let ghost c0 = self.conversations@;
                let mut c = copy_conversation(&self.conversations[k]);
                c.title = title;
                c.updated_at = now;
                self.conversations.set(k, c);
                proof {
                    let cs = self.conversations@;
                    assert forall|a: int| 0 <= a < c0.len() && a != k implies c0[a].id@ != id@ by {
                        if a < k {
                            assert(c0[a].id@ != c0[k as int].id@);
                        } else {
                            assert(c0[k as int].id@ != c0[a].id@);
                        }
                    }
                    assert forall|a: int, b: int| 0 <= a < b < cs.len() implies cs[a].id@ != cs[b].id@ by {
                        assert(cs[a].id@ == c0[a].id@ && cs[b].id@ == c0[b].id@);
                    }
                    assert forall|a: int| 0 <= a < self.messages@.len() implies has_conversation(cs, #[trigger] self.messages@[a].conversation_id@) by {
                        let j = choose|j: int| 0 <= j < c0.len() && c0[j].id@ == self.messages@[a].conversation_id@;
                        assert(cs[j].id@ == c0[j].id@);
                    }
                }
            },
            None => {},
        }
    }

    /// Deletes conversation `id` together with its messages.
    pub fn delete_ai_conversation(&mut self, id: &str)
        requires
            old(self).wf(),
        ensures
            final(self).wf(),
            !has_conversation(final(self).conversations(), id@),
            forall|c: AiConversation| #[trigger] final(self).conversations().contains(c) <==> old(self).conversations().contains(c) && c.id@ != id@,
            forall|m: AiMessage| #[trigger] final(self).messages().contains(m) <==> old(self).messages().contains(m) && m.conversation_id@ != id@,
    {
        let key = id.to_owned();
        let ghost c0 = self.conversations@;
        let ghost m0 = self.messages@;
        let mut kept: Vec<AiMessage> = Vec::new();
        let ghost mut midx: Seq<int> = seq![];
        let mut i: usize = 0;
        while i < self.messages.len()
            invariant
                i <= m0.len(),
                self.messages@ == m0,
                key@ == id@,
                midx.len() == kept@.len(),
                forall|a: int| 0 <= a < midx.len() ==> 0 <= #[trigger] midx[a] < i && kept@[a] == m0[midx[a]],
                forall|a: int, c: int| 0 <= a < c < midx.len() ==> midx[a] < midx[c],
                forall|a: int| 0 <= a < kept@.len() ==> (#[trigger] kept@[a]).conversation_id@ != id@,
                forall|q: int| 0 <= q < i && (#[trigger] m0[q]).conversation_id@ != id@ ==> kept@.contains(m0[q]),
            decreases m0.len() - i,
        {
            if !(self.messages[i].conversation_id == key) {
                let ghost before = kept@;
                kept.push(copy_message(&self.messages[i]));
                proof {
                    midx = midx.push(i as int);
                    assert forall|q: int| 0 <= q < i + 1 && (#[trigger] m0[q]).conversation_id@ != id@ implies kept@.contains(m0[q]) by {
                        if q < i {
                            let a = choose|a: int| 0 <= a < before.len() && before[a] == m0[q];
                            assert(kept@[a] == before[a]);
                        } else {
                            assert(kept@[before.len() as int] == m0[q]);
                        }
                    }
                }
            }
            i = i + 1;
        }
        let mut convs: Vec<AiConversation> = Vec::new();
        let ghost mut cidx: Seq<int> = seq![];
        let mut i: usize = 0;
        while i < self.conversations.len()
            invariant
                i <= c0.len(),
                self.conversations@ == c0,
                key@ == id@,
                cidx.len() == convs@.len(),
                forall|a: int| 0 <= a < cidx.len() ==> 0 <= #[trigger] cidx[a] < i && convs@[a] == c0[cidx[a]],
                forall|a: int, c: int| 0 <= a < c < cidx.len() ==> cidx[a] < cidx[c],
                forall|a: int| 0 <= a < convs@.len() ==> (#[trigger] convs@[a]).id@ != id@,
                forall|q: int| 0 <= q < i && (#[trigger] c0[q]).id@ != id@ ==> convs@.contains(c0[q]),
            decreases c0.len() - i,
        {
            if !(self.conversations[i].id == key) {
                let ghost before = convs@;
                convs.push(copy_conversation(&self.conversations[i]));
                proof {
                    cidx = cidx.push(i as int);
                    assert forall|q: int| 0 <= q < i + 1 && (#[trigger] c0[q]).id@ != id@ implies convs@.contains(c0[q]) by {
                        if q < i {
                            let a = choose|a: int| 0 <= a < before.len() && before[a] == c0[q];
                            assert(convs@[a] == before[a]);
                        } else {
                            assert(convs@[before.len() as int] == c0[q]);
                        }
                    }
                }
            }
            i = i + 1;
        }
        self.messages = kept;
        self.conversations = convs;
        proof {
            let (ms, cs) = (self.messages@, self.conversations@);
            assert forall|m: AiMessage| #[trigger] ms.contains(m) <==> m0.contains(m) && m.conversation_id@ != id@ by {
                if ms.contains(m) {
                    let a = choose|a: int| 0 <= a < ms.len() && ms[a] == m;
                    assert(m0[midx[a]] == m);
                }
                if m0.contains(m) && m.conversation_id@ != id@ {
                    let q = choose|q: int| 0 <= q < m0.len() && m0[q] == m;
                }
            }
            assert forall|c: AiConversation| #[trigger] cs.contains(c) <==> c0.contains(c) && c.id@ != id@ by {
                if cs.contains(c) {
                    let a = choose|a: int| 0 <= a < cs.len() && cs[a] == c;
                    assert(c0[cidx[a]] == c);
                }
                if c0.contains(c) && c.id@ != id@ {
                    let q = choose|q: int| 0 <= q < c0.len() && c0[q] == c;
                }
            }
            assert forall|a: int, b: int| 0 <= a < b < ms.len() implies ms[a].id@ != ms[b].id@ by {
                assert(ms[a] == m0[midx[a]]);
                assert(ms[b] == m0[midx[b]]);
            }
            assert forall|a: int, b: int| 0 <= a < b < cs.len() implies cs[a].id@ != cs[b].id@ by {
                assert(cs[a] == c0[cidx[a]]);
                assert(cs[b] == c0[cidx[b]]);
            }
            assert forall|a: int| 0 <= a < ms.len() implies has_conversation(cs, #[trigger] ms[a].conversation_id@) by {
                let m = ms[a];
                assert(m == m0[midx[a]]);
                assert(has_conversation(c0, m.conversation_id@));
                let q = choose|q: int| 0 <= q < c0.len() && c0[q].id@ == m.conversation_id@;
                assert(cs.contains(c0[q]));
                let c = choose|c: int| 0 <= c < cs.len() && cs[c] == c0[q];
            }
            assert(!has_conversation(cs, id@)) by {
                if has_conversation(cs, id@) {
                    let c = choose|c: int| 0 <= c < cs.len() && cs[c].id@ == id@;
                }
            }
        }
    }

    /// The conversations whose title, or the content of one of whose
    /// messages, holds `query` ignoring ASCII case, in store order; at most
    /// `limit` of them when a limit is given.
    pub fn search_ai_conversations(&self, query: &str, limit: Option<usize>) -> (r: Vec<AiConversation>)
        ensures
            r@ == conversations_found(self.conversations(), self.messages(), query@, self.conversations().len() as int).take(
                match limit {
                    Some(l) => if l < conversations_found(self.conversations(), self.messages(), query@, self.conversations().len() as int).len() { l as int } else { conversations_found(self.conversations(), self.messages(), query@, self.conversations().len() as int).len() as int },
                    None => conversations_found(self.conversations(), self.messages(), query@, self.conversations().len() as int).len() as int,
                },
            ),
    {
        let qc = chars_of(query);
        let q = fold_chars(&qc);
        let mut found: Vec<AiConversation> = Vec::new();
        let mut i: usize = 0;
        while i < self.conversations.len()
            invariant
                i <= self.conversations@.len(),
                q@ == fold(query@),
                found@ == conversations_found(self.conversations@, self.messages@, query@, i as int),
            decreases self.conversations@.len() - i,
        {
            let c = &self.conversations[i];
            let t = chars_of(c.title.as_str());
            let tf = fold_chars(&t);
            let title_hit = contains_chars(&tf, &q);
            let mut msg_hit = false;
            let mut j: usize = 0;
            while j < self.messages.len() && !msg_hit
                invariant
                    j <= self.messages@.len(),
                    q@ == fold(query@),
                    !msg_hit ==> forall|k: int| 0 <= k < j ==> !(self.messages@[k].conversation_id@ == c.id@ && contains_folded(#[trigger] self.messages@[k].content@, query@)),
                    msg_hit ==> exists|k: int| 0 <= k < self.messages@.len() && self.messages@[k].conversation_id@ == c.id@ && contains_folded(#[trigger] self.messages@[k].content@, query@),
                decreases self.messages@.len() - j,
            {
                let m = &self.messages[j];
                if m.conversation_id == c.id {
                    let mc = chars_of(m.content.as_str());
                    let mf = fold_chars(&mc);
                    if contains_chars(&mf, &q) {
                        msg_hit = true;
                    }
                }
                j = j + 1;
            }
            let hit = title_hit || msg_hit;
            assert(hit == conversation_found(*c, self.messages@, query@));
            if hit {
                found.push(copy_conversation(c));
            }
            proof {
                if hit {
                    assert(conversations_found(self.conversations@, self.messages@, query@, i + 1) =~= conversations_found(self.conversations@, self.messages@, query@, i as int).push(self.conversations@[i as int]));
                } else {
                    assert(conversations_found(self.conversations@, self.messages@, query@, i + 1) =~= conversations_found(self.conversations@, self.messages@, query@, i as int));
                }
            }
            i = i + 1;
        }
        let n: usize = match limit {
            Some(l) => if l < found.len() { l } else { found.len() },
            None => found.len(),
        };
        let mut out: Vec<AiConversation> = Vec::new();
        let mut k: usize = 0;
        while k < n
            invariant
                k <= n,
                n <= found@.len(),
                out@ == found@.take(k as int),
            decreases n - k,
        {
            out.push(copy_conversation(&found[k]));
            k = k + 1;
            assert(found@.take(k as int) =~= found@.take(k - 1).push(found@[k - 1]));
        }
        out
    }

    /// Saves a conversation together with its messages, all or nothing: if
    /// some message belongs neither to this conversation nor to a stored
    /// one, nothing is saved.
    pub fn sync_ai_conversation_with_messages(
        &mut self,
        conversation: SaveConversationRequest,
        messages: Vec<SaveMessageRequest>,
    ) -> (r: Result<(), StoreError>)
        requires
            old(self).wf(),
        ensures
            r is Err ==> r == Err::<(), StoreError>(StoreError::OwnerNotFound),
            final(self).wf(),
            (exists|k: int|
                0 <= k < messages@.len() && messages@[k].conversation_id@ != conversation.id@ && !has_conversation(
                    old(self).conversations(),
                    #[trigger] messages@[k].conversation_id@,
                )) <==> r == Err::<(), StoreError>(StoreError::OwnerNotFound),
            r is Err ==> *final(self) == *old(self),
            r is Ok ==> has_conversation(final(self).conversations(), conversation.id@) && forall|k: int|
                0 <= k < messages@.len() ==> has_message(final(self).messages(), #[trigger] messages@[k].id@),
    {
        let cid = conversation.id.clone();
        let mut k: usize = 0;
        while k < messages.len()
            invariant
                k <= messages@.len(),
                *self == *old(self),
                self.wf(),
                cid@ == conversation.id@,
                forall|j: int| 0 <= j < k ==> messages@[j].conversation_id@ == conversation.id@ || has_conversation(self.conversations@, #[trigger] messages@[j].conversation_id@),
            decreases messages@.len() - k,
        {
            if !(messages[k].conversation_id == cid) && self.find_conversation(messages[k].conversation_id.as_str()).is_none() {
                return Err(StoreError::OwnerNotFound);
            }
            k = k + 1;
        }
        let ghost c0 = self.conversations@;
        let ghost cv = conversation;
        self.save_ai_conversation(conversation.into_conversation());
        proof {
            let cs = self.conversations@;
            assert forall|id: Seq<char>| has_conversation(c0, id) || id == cv.id@ implies #[trigger] has_conversation(cs, id) by {
                if id == cv.id@ {
                    let c = choose|c: AiConversation| cs.contains(c) && c.id@ == cv.id@;
                    let j = choose|j: int| 0 <= j < cs.len() && cs[j] == c;
                } else {
                    let j = choose|j: int| 0 <= j < c0.len() && c0[j].id@ == id;
                    assert(c0.contains(c0[j]));
                    assert(cs.contains(c0[j]));
                    let q = choose|q: int| 0 <= q < cs.len() && cs[q] == c0[j];
                }
            }
        }
        let ghost msgs = messages@;
        let total = messages.len();
        let mut rest = messages;
        let mut done: usize = 0;
        while rest.len() > 0
            invariant
                self.wf(),
                has_conversation(self.conversations@, cv.id@),
                done + rest@.len() == total,
                total == msgs.len(),
                rest@ == msgs.skip(done as int),
                forall|j: int| 0 <= j < msgs.len() ==> msgs[j].conversation_id@ == cv.id@ || has_conversation(c0, #[trigger] msgs[j].conversation_id@),
                forall|id: Seq<char>| has_conversation(c0, id) || id == cv.id@ ==> #[trigger] has_conversation(self.conversations@, id),
                forall|j: int| 0 <= j < done ==> has_message(self.messages@, #[trigger] msgs[j].id@),
            decreases rest@.len(),
        {
            let m = rest.remove(0);
            proof {
                assert(m == msgs[done as int]);
                assert(rest@ =~= msgs.skip(done + 1));
            }
            let ghost ms0 = self.messages@;
            let ghost mv = m.into_message_spec();
            proof {
                assert(mv.conversation_id@ == msgs[done as int].conversation_id@);
                assert(has_conversation(self.conversations@, mv.conversation_id@));
            }
            let msg = m.into_message();
            assert(msg == mv);
            let saved = self.save_ai_message(msg);
            proof {
                let ms = self.messages@;
                assert forall|j: int| 0 <= j < done + 1 implies has_message(ms, #[trigger] msgs[j].id@) by {
                    if msgs[j].id@ == mv.id@ {
                        assert(ms.contains(mv));
                        let q = choose|q: int| 0 <= q < ms.len() && ms[q] == mv;
                    } else {
                        let q = choose|q: int| 0 <= q < ms0.len() && ms0[q].id@ == msgs[j].id@;
                        assert(ms0.contains(ms0[q]));
                        assert(ms.contains(ms0[q]));
                        let q2 = choose|q2: int| 0 <= q2 < ms.len() && ms[q2] == ms0[q];
                    }
                }
            }
            done = done + 1;
        }
        Ok(())
    }

    /// Deletes every conversation last updated before `cutoff` (compared as
    /// text, `YYYY-MM-DD HH:MM:SS`), with its messages; returns how many
    /// conversations went.
    pub fn cleanup_old_ai_conversations(&mut self, cutoff: &str) -> (r: usize)
        requires
            old(self).wf(),
        ensures
            final(self).wf(),
            r == old(self).conversations().len() - final(self).conversations().len(),
            forall|c: AiConversation| #[trigger] final(self).conversations().contains(c) <==> old(self).conversations().contains(c) && lex_le(cutoff@, c.updated_at@),
            forall|m: AiMessage| #[trigger] final(self).messages().contains(m) <==> old(self).messages().contains(m) && !expired(old(self).conversations(), m.conversation_id@, cutoff@),
    {
        let cut = crate::chars::chars_of(cutoff);
        let ghost c0 = self.conversations@;
        let ghost m0 = self.messages@;
        let mut kept: Vec<AiMessage> = Vec::new();
        let ghost mut midx: Seq<int> = seq![];
        let mut i: usize = 0;
        while i < self.messages.len()
            invariant
                i <= m0.len(),
                self.messages@ == m0,
                self.conversations@ == c0,
                self.wf(),
                cut@ == cutoff@,
                midx.len() == kept@.len(),
                forall|a: int| 0 <= a < midx.len() ==> 0 <= #[trigger] midx[a] < i && kept@[a] == m0[midx[a]],
                forall|a: int, c: int| 0 <= a < c < midx.len() ==> midx[a] < midx[c],
                forall|a: int| 0 <= a < kept@.len() ==> !expired(c0, (#[trigger] kept@[a]).conversation_id@, cutoff@),
                forall|q: int| 0 <= q < i && !expired(c0, (#[trigger] m0[q]).conversation_id@, cutoff@) ==> kept@.contains(m0[q]),
            decreases m0.len() - i,
        {
            let m = &self.messages[i];
            let gone = match self.find_conversation(m.conversation_id.as_str()) {
                Some(j) => {
                    let u = crate::chars::chars_of(self.conversations[j].updated_at.as_str());
                    let keep = lex_le_exec(&cut, &u);
                    proof {
                        if expired(c0, m.conversation_id@, cutoff@) {
                            let q = choose|q: int| 0 <= q < c0.len() && c0[q].id@ == m.conversation_id@ && !lex_le(cutoff@, #[trigger] c0[q].updated_at@);
                            if q != j as int {
                                if q < j as int { assert(c0[q].id@ != c0[j as int].id@); } else { assert(c0[j as int].id@ != c0[q].id@); }
                            }
                        }
                    }
                    !keep
                },
                None => {
                    proof {
                        if expired(c0, m.conversation_id@, cutoff@) {
                            let q = choose|q: int| 0 <= q < c0.len() && c0[q].id@ == m.conversation_id@ && !lex_le(cutoff@, #[trigger] c0[q].updated_at@);
                        }
                    }
                    false
                },
            };
            assert(gone == expired(c0, m.conversation_id@, cutoff@));
            if !gone {
                let ghost before = kept@;
                kept.push(copy_message(m));
                proof {
                    midx = midx.push(i as int);
                    assert forall|q: int| 0 <= q < i + 1 && !expired(c0, (#[trigger] m0[q]).conversation_id@, cutoff@) implies kept@.contains(m0[q]) by {
                        if q < i {
                            let a = choose|a: int| 0 <= a < before.len() && before[a] == m0[q];
                            assert(kept@[a] == before[a]);
                        } else {
                            assert(kept@[before.len() as int] == m0[q]);
                        }
                    }
                }
            }
            i = i + 1;
        }
        let mut convs: Vec<AiConversation> = Vec::new();
        let ghost mut cidx: Seq<int> = seq![];
        let mut i: usize = 0;
        while i < self.conversations.len()
            invariant
                i <= c0.len(),
                self.conversations@ == c0,
                cut@ == cutoff@,
                cidx.len() == convs@.len(),
                convs@.len() <= i,
                forall|a: int| 0 <= a < cidx.len() ==> 0 <= #[trigger] cidx[a] < i && convs@[a] == c0[cidx[a]],
                forall|a: int, c: int| 0 <= a < c < cidx.len() ==> cidx[a] < cidx[c],
                forall|a: int| 0 <= a < convs@.len() ==> lex_le(cutoff@, (#[trigger] convs@[a]).updated_at@),
                forall|q: int| 0 <= q < i && lex_le(cutoff@, (#[trigger] c0[q]).updated_at@) ==> convs@.contains(c0[q]),
            decreases c0.len() - i,
        {
            let u = crate::chars::chars_of(self.conversations[i].updated_at.as_str());
            if lex_le_exec(&cut, &u) {
                let ghost before = convs@;
                convs.push(copy_conversation(&self.conversations[i]));
                proof {
                    cidx = cidx.push(i as int);
                    assert forall|q: int| 0 <= q < i + 1 && lex_le(cutoff@, (#[trigger] c0[q]).updated_at@) implies convs@.contains(c0[q]) by {
                        if q < i {
                            let a = choose|a: int| 0 <= a < before.len() && before[a] == c0[q];
                            assert(convs@[a] == before[a]);
                        } else {
                            assert(convs@[before.len() as int] == c0[q]);
                        }
                    }
                }
            }
            i = i + 1;
        }
        let removed = self.conversations.len() - convs.len();
        self.messages = kept;
        self.conversations = convs;
        proof {
            let (ms, cs) = (self.messages@, self.conversations@);
            assert forall|m: AiMessage| #[trigger] ms.contains(m) <==> m0.contains(m) && !expired(c0, m.conversation_id@, cutoff@) by {
                if ms.contains(m) {
                    let a = choose|a: int| 0 <= a < ms.len() && ms[a] == m;
                    assert(m0[midx[a]] == m);
                }
                if m0.contains(m) && !expired(c0, m.conversation_id@, cutoff@) {
                    let q = choose|q: int| 0 <= q < m0.len() && m0[q] == m;
                }
            }
            assert forall|c: AiConversation| #[trigger] cs.contains(c) <==> c0.contains(c) && lex_le(cutoff@, c.updated_at@) by {
                if cs.contains(c) {
                    let a = choose|a: int| 0 <= a < cs.len() && cs[a] == c;
                    assert(c0[cidx[a]] == c);
                }
                if c0.contains(c) && lex_le(cutoff@, c.updated_at@) {
                    let q = choose|q: int| 0 <= q < c0.len() && c0[q] == c;
                }
            }
            assert forall|a: int, b: int| 0 <= a < b < ms.len() implies ms[a].id@ != ms[b].id@ by {
                assert(ms[a] == m0[midx[a]]);
                assert(ms[b] == m0[midx[b]]);
            }
            assert forall|a: int, b: int| 0 <= a < b < cs.len() implies cs[a].id@ != cs[b].id@ by {
                assert(cs[a] == c0[cidx[a]]);
                assert(cs[b] == c0[cidx[b]]);
            }
            assert forall|a: int| 0 <= a < ms.len() implies has_conversation(cs, #[trigger] ms[a].conversation_id@) by {
                let m = ms[a];
                assert(m == m0[midx[a]]);
                assert(has_conversation(c0, m.conversation_id@));
                let q = choose|q: int| 0 <= q < c0.len() && c0[q].id@ == m.conversation_id@;
                if !lex_le(cutoff@, c0[q].updated_at@) {
                    assert(expired(c0, m.conversation_id@, cutoff@));
                }
                assert(cs.contains(c0[q]));
                let c = choose|c: int| 0 <= c < cs.len() && cs[c] == c0[q];
            }
        }
        removed
    }
}

} // verus!
