//! Session state for the assistant's agent mode.
//!
//! The manager tracks, per session, the latest task-progress note and the
//! ordered list of messages sent to the user.  Sessions are keyed by their
//! id; the store keeps one entry per key, and all bookkeeping is plain
//! in-memory data.  Timestamps come from the system clock and nothing is
//! assumed about their values.

use vstd::prelude::*;

use crate::text::{spells_ci, spells_word_ci};

verus! {

/// Severity of a message sent to the user.
#[derive(Clone, Copy, Debug, PartialEq, Eq, Structural)]
pub enum AgentMessageType {
    Info,
    Success,
    Warning,
    Error,
}

/// The latest task-progress note of one session.
#[derive(Clone, Debug)]
pub struct TaskProgress {
    pub markdown_content: String,
    pub timestamp: i64,
}

/// One message shown to the user.
#[derive(Clone, Debug)]
pub struct UserMessage {
    pub message: String,
    pub message_type: AgentMessageType,
    pub timestamp: i64,
}

/// Relies on chrono::Utc::now and DateTime::timestamp_millis: the current
/// wall-clock time in milliseconds since the Unix epoch.  No property of
/// the value is assumed.
#[verifier::external_body]
fn now_millis() -> i64 {
    chrono::Utc::now().timestamp_millis()
}

// ---------------------------------------------------------------------------
// Association-list lookups
// ---------------------------------------------------------------------------

/// The value of the first entry whose key reads `key`.
pub open spec fn assoc_find<V>(s: Seq<(String, V)>, key: Seq<char>) -> Option<V>
    decreases s.len(),
{
    if s.len() == 0 {
        None
    } else if s[0].0@ == key {
        Some(s[0].1)
    } else {
        assoc_find(s.skip(1), key)
    }
}

/// No entry carries a key twice.
pub open spec fn unique_keys<V>(s: Seq<(String, V)>) -> bool {
    forall|i: int, j: int| 0 <= i < j < s.len() ==> s[i].0@ != s[j].0@
}

proof fn lemma_absent_find_none<V>(s: Seq<(String, V)>, key: Seq<char>)
    requires
        forall|j: int| 0 <= j < s.len() ==> s[j].0@ != key,
    ensures
        assoc_find(s, key) is None,
    decreases s.len(),
{
    if s.len() > 0 {
        assert forall|j: int| 0 <= j < s.skip(1).len() implies s.skip(1)[j].0@ != key by {
            assert(s.skip(1)[j] == s[j + 1]);
        }
        lemma_absent_find_none(s.skip(1), key);
    }
}

/// The first matching entry decides the lookup.
proof fn lemma_find_first<V>(s: Seq<(String, V)>, i: int)
    requires
        0 <= i < s.len(),
        forall|j: int| 0 <= j < i ==> s[j].0@ != s[i].0@,
    ensures
        assoc_find(s, s[i].0@) == Some(s[i].1),
    decreases s.len(),
{
    if i > 0 {
        assert forall|j: int|
            0 <= j < i - 1 implies (#[trigger] s.skip(1)[j]).0@ != s.skip(1)[i - 1].0@ by {
            assert(s.skip(1)[j] == s[j + 1]);
            assert(s.skip(1)[i - 1] == s[i]);
        }
        lemma_find_first(s.skip(1), i - 1);
        assert(s.skip(1)[i - 1] == s[i]);
    }
}

/// Replacing the entry at `i` leaves every other key's lookup alone.
proof fn lemma_find_update_other<V>(s: Seq<(String, V)>, i: int, e: (String, V), key: Seq<char>)
    requires
        0 <= i < s.len(),
        key != s[i].0@,
        key != e.0@,
    ensures
        assoc_find(s.update(i, e), key) == assoc_find(s, key),
    decreases s.len(),
{
    let t = s.update(i, e);
    if i == 0 {
        assert(t[0] == e);
        assert(t.skip(1) =~= s.skip(1));
    } else {
        assert(t[0] == s[0]);
        if s[0].0@ == key {
        } else {
            assert(t.skip(1) =~= s.skip(1).update(i - 1, e));
            assert(s.skip(1)[i - 1] == s[i]);
            lemma_find_update_other(s.skip(1), i - 1, e, key);
        }
    }
}

/// Appending an entry leaves every other key's lookup alone.
proof fn lemma_find_push_other<V>(s: Seq<(String, V)>, e: (String, V), key: Seq<char>)
    requires
        key != e.0@,
    ensures
        assoc_find(s.push(e), key) == assoc_find(s, key),
    decreases s.len(),
{
    let t = s.push(e);
    if s.len() == 0 {
        assert(t[0] == e);
        assert(t.skip(1) =~= Seq::<(String, V)>::empty());
    } else {
        assert(t[0] == s[0]);
        if s[0].0@ == key {
        } else {
            assert(t.skip(1) =~= s.skip(1).push(e));
            lemma_find_push_other(s.skip(1), e, key);
        }
    }
}

/// Removing the entry at `i` leaves every other key's lookup alone.
proof fn lemma_find_remove_other<V>(s: Seq<(String, V)>, i: int, key: Seq<char>)
    requires
        0 <= i < s.len(),
        key != s[i].0@,
    ensures
        assoc_find(s.remove(i), key) == assoc_find(s, key),
    decreases s.len(),
{
    let t = s.remove(i);
    if i == 0 {
        assert(t =~= s.skip(1));
    } else {
        assert(t[0] == s[0]);
        if s[0].0@ == key {
        } else {
            assert(t.skip(1) =~= s.skip(1).remove(i - 1));
            assert(s.skip(1)[i - 1] == s[i]);
            lemma_find_remove_other(s.skip(1), i - 1, key);
        }
    }
}

// ---------------------------------------------------------------------------
// The manager
// ---------------------------------------------------------------------------

/// First index whose entry is keyed by `key`, together with the guarantee
/// that no earlier entry matches.
fn find_entry<V>(entries: &Vec<(String, V)>, key: &String) -> (r: Option<usize>)
    ensures
        match r {
            Some(i) => {
                &&& i < entries@.len()
                &&& entries@[i as int].0@ == key@
                &&& forall|j: int| 0 <= j < i ==> entries@[j].0@ != key@
            },
            None => forall|j: int| 0 <= j < entries@.len() ==> entries@[j].0@ != key@,
        },
{
    let n = entries.len();
    let mut i: usize = 0;
    while i < n
        invariant
            i <= n,
            n == entries@.len(),
            forall|j: int| 0 <= j < i ==> entries@[j].0@ != key@,
        decreases n - i,
    {
        let e = &entries[i];
        if e.0 == *key {
            return Some(i);
        }
        i = i + 1;
    }
    None
}

/// Per-session agent state: the latest progress note and the messages sent
/// so far, each keyed by session id.
pub struct AgentStateManager {
    progress_entries: Vec<(String, TaskProgress)>,
    message_entries: Vec<(String, Vec<UserMessage>)>,
}

impl AgentStateManager {
    /// One progress note and one message list per session id.
    pub closed spec fn wf(self) -> bool {
        &&& unique_keys(self.progress_entries@)
        &&& unique_keys(self.message_entries@)
    }

    /// The progress note stored for a session, if any.
    pub closed spec fn progress_of(self, key: Seq<char>) -> Option<TaskProgress> {
        assoc_find(self.progress_entries@, key)
    }

    /// The messages stored for a session, oldest first.
    pub closed spec fn messages_of(self, key: Seq<char>) -> Seq<UserMessage> {
        match assoc_find(self.message_entries@, key) {
            Some(v) => v@,
            None => Seq::empty(),
        }
    }

    /// A manager with no session state at all.
    pub fn new() -> (r: Self)
        ensures
            r.wf(),
            forall|k: Seq<char>| r.progress_of(k) is None,
            forall|k: Seq<char>| r.messages_of(k) == Seq::<UserMessage>::empty(),
    {
        let r = AgentStateManager { progress_entries: Vec::new(), message_entries: Vec::new() };
        proof {
            assert(forall|k: Seq<char>| r.progress_of(k) is None);
            assert(forall|k: Seq<char>| r.messages_of(k) =~= Seq::<UserMessage>::empty());
        }
        r
    }

    /// Replace (or create) the progress note of a session.  The stored and
    /// returned note carries the given text and the clock's timestamp;
    /// every other session, and all message lists, stay as they were.
    pub fn update_task_progress(&mut self, session_id: String, markdown_content: String) -> (r:
        Result<TaskProgress, String>)
        requires
            old(self).wf(),
        ensures
            final(self).wf(),
            r is Ok,
            (r->Ok_0).markdown_content@ == markdown_content@,
            final(self).progress_of(session_id@) == Some(r->Ok_0),
            forall|k: Seq<char>|
                k != session_id@ ==> final(self).progress_of(k) == old(self).progress_of(k),
            forall|k: Seq<char>| final(self).messages_of(k) == old(self).messages_of(k),
    {
        let ts = now_millis();
        let ret = TaskProgress { markdown_content, timestamp: ts };
        let stored = TaskProgress { markdown_content: ret.markdown_content.clone(), timestamp: ts };
        assert(stored == ret);
        let ghost before = self.progress_entries@;
        match find_entry(&self.progress_entries, &session_id) {
            Some(i) => {
                let entry = self.progress_entries.remove(i);
                let (key, _old_note) = entry;
                self.progress_entries.insert(i, (key, stored));
                proof {
                    let e = (entry.0, stored);
                    assert(self.progress_entries@ =~= before.update(i as int, e));
                    let now_entries = self.progress_entries@;
                    assert forall|a: int, b: int|
                        0 <= a < b < now_entries.len() implies now_entries[a].0@
                        != now_entries[b].0@ by {
                        assert(now_entries[a].0@ == before[a].0@);
                        assert(now_entries[b].0@ == before[b].0@);
                    }
                    assert forall|j: int| 0 <= j < i implies (#[trigger] now_entries[j]).0@
                        != now_entries[i as int].0@ by {
                        assert(now_entries[j].0@ == before[j].0@);
                    }
                    lemma_find_first(now_entries, i as int);
                    assert forall|k: Seq<char>|
                        k != session_id@ implies assoc_find(now_entries, k) == assoc_find(
                        before,
                        k,
                    ) by {
                        lemma_find_update_other(before, i as int, e, k);
                    }
                }
                Ok(ret)
            },
            None => {
                let ghost e = (session_id, stored);
                self.progress_entries.push((session_id, stored));
                proof {
                    let now_entries = self.progress_entries@;
                    assert(now_entries =~= before.push(e));
                    assert forall|a: int, b: int|
                        0 <= a < b < now_entries.len() implies now_entries[a].0@
                        != now_entries[b].0@ by {
                        if b < before.len() {
                            assert(now_entries[a] == before[a]);
                            assert(now_entries[b] == before[b]);
                        } else {
                            assert(now_entries[a] == before[a]);
                            assert(now_entries[b] == e);
                        }
                    }
                    assert forall|j: int| 0 <= j < before.len() implies (#[trigger] now_entries[j]).0@
                        != now_entries[before.len() as int].0@ by {
                        assert(now_entries[j] == before[j]);
                    }
                    lemma_find_first(now_entries, before.len() as int);
                    assert forall|k: Seq<char>|
                        k != session_id@ implies assoc_find(now_entries, k) == assoc_find(
                        before,
                        k,
                    ) by {
                        lemma_find_push_other(before, e, k);
                    }
                }
                Ok(ret)
            },
        }
    }

    /// The progress note of a session, if one was stored.
    pub fn get_task_progress(&self, session_id: &str) -> (r: Option<TaskProgress>)
        ensures
            r == self.progress_of(session_id@),
    {
        let key = session_id.to_owned();
        match find_entry(&self.progress_entries, &key) {
            Some(i) => {
                proof {
                    lemma_find_first(self.progress_entries@, i as int);
                }
                let e = &self.progress_entries[i];
                let copy = TaskProgress {
                    markdown_content: e.1.markdown_content.clone(),
                    timestamp: e.1.timestamp,
                };
                assert(copy == self.progress_entries@[i as int].1);
                Some(copy)
            },
            None => {
                proof {
                    lemma_absent_find_none(self.progress_entries@, session_id@);
                }
                None
            },
        }
    }

    /// Append a message to a session's list.  The stored and returned
    /// message carries the given text, type and the clock's timestamp;
    /// every other session, and all progress notes, stay as they were.
    pub fn send_user_message(
        &mut self,
        session_id: String,
        message: String,
        message_type: AgentMessageType,
    ) -> (r: Result<UserMessage, String>)
        requires
            old(self).wf(),
        ensures
            final(self).wf(),
            r is Ok,
            (r->Ok_0).message@ == message@,
            (r->Ok_0).message_type == message_type,
            final(self).messages_of(session_id@) == old(self).messages_of(session_id@).push(
                r->Ok_0,
            ),
            forall|k: Seq<char>|
                k != session_id@ ==> final(self).messages_of(k) == old(self).messages_of(k),
            forall|k: Seq<char>| final(self).progress_of(k) == old(self).progress_of(k),
    {
        let ts = now_millis();
        let ret = UserMessage { message, message_type, timestamp: ts };
        let stored = UserMessage {
            message: ret.message.clone(),
            message_type: ret.message_type,
            timestamp: ts,
        };
        assert(stored == ret);
        let ghost before = self.message_entries@;
        match find_entry(&self.message_entries, &session_id) {
            Some(i) => {
                let entry = self.message_entries.remove(i);
                let (key, mut list) = entry;
                let ghost old_list = list@;
                list.push(stored);
                self.message_entries.insert(i, (key, list));
                proof {
                    let e = (entry.0, list);
                    assert(self.message_entries@ =~= before.update(i as int, e));
                    let now_entries = self.message_entries@;
                    assert forall|a: int, b: int|
                        0 <= a < b < now_entries.len() implies now_entries[a].0@
                        != now_entries[b].0@ by {
                        assert(now_entries[a].0@ == before[a].0@);
                        assert(now_entries[b].0@ == before[b].0@);
                    }
                    assert forall|j: int| 0 <= j < i implies (#[trigger] now_entries[j]).0@
                        != now_entries[i as int].0@ by {
                        assert(now_entries[j].0@ == before[j].0@);
                    }
                    lemma_find_first(now_entries, i as int);
                    lemma_find_first(before, i as int);
                    assert(old(self).messages_of(session_id@) == old_list);
                    assert forall|k: Seq<char>|
                        k != session_id@ implies assoc_find(now_entries, k) == assoc_find(
                        before,
                        k,
                    ) by {
                        lemma_find_update_other(before, i as int, e, k);
                    }
                }
                Ok(ret)
            },
            None => {
                let mut list: Vec<UserMessage> = Vec::new();
                list.push(stored);
                let ghost e = (session_id, list);
                self.message_entries.push((session_id, list));
                proof {
                    let now_entries = self.message_entries@;
                    assert(now_entries =~= before.push(e));
                    assert forall|a: int, b: int|
                        0 <= a < b < now_entries.len() implies now_entries[a].0@
                        != now_entries[b].0@ by {
                        if b < before.len() {
                            assert(now_entries[a] == before[a]);
                            assert(now_entries[b] == before[b]);
                        } else {
                            assert(now_entries[a] == before[a]);
                            assert(now_entries[b] == e);
                        }
                    }
                    assert forall|j: int| 0 <= j < before.len() implies (#[trigger] now_entries[j]).0@
                        != now_entries[before.len() as int].0@ by {
                        assert(now_entries[j] == before[j]);
                    }
                    lemma_find_first(now_entries, before.len() as int);
                    lemma_absent_find_none(before, session_id@);
                    assert(list@ =~= Seq::<UserMessage>::empty().push(stored));
                    assert forall|k: Seq<char>|
                        k != session_id@ implies assoc_find(now_entries, k) == assoc_find(
                        before,
                        k,
                    ) by {
                        lemma_find_push_other(before, e, k);
                    }
                }
                Ok(ret)
            },
        }
    }

    /// All messages of a session, oldest first; empty when none were sent.
    pub fn get_user_messages(&self, session_id: &str) -> (r: Vec<UserMessage>)
        ensures
            r@ == self.messages_of(session_id@),
    {
        let key = session_id.to_owned();
        match find_entry(&self.message_entries, &key) {
            Some(i) => {
                proof {
                    lemma_find_first(self.message_entries@, i as int);
                }
                let list = &self.message_entries[i].1;
                let n = list.len();
                let mut out: Vec<UserMessage> = Vec::new();
                let mut j: usize = 0;
                while j < n
                    invariant
                        j <= n,
                        n == list@.len(),
                        list@ == self.message_entries@[i as int].1@,
                        i < self.message_entries@.len(),
                        out@ =~= list@.take(j as int),
                    decreases n - j,
                {
                    let m = &list[j];
                    let copy = UserMessage {
                        message: m.message.clone(),
                        message_type: m.message_type,
                        timestamp: m.timestamp,
                    };
                    assert(copy == list@[j as int]);
                    out.push(copy);
                    proof {
                        assert(out@ =~= list@.take(j as int + 1));
                    }
                    j = j + 1;
                }
                proof {
                    assert(list@.take(n as int) =~= list@);
                }
                out
            },
            None => {
                proof {
                    lemma_absent_find_none(self.message_entries@, session_id@);
                }
                Vec::new()
            },
        }
    }

    /// Forget everything stored for a session; every other session stays
    /// as it was.
    pub fn clear_session(&mut self, session_id: &str)
        requires
            old(self).wf(),
        ensures
            final(self).wf(),
            final(self).progress_of(session_id@) is None,
            final(self).messages_of(session_id@) == Seq::<UserMessage>::empty(),
            forall|k: Seq<char>|
                k != session_id@ ==> final(self).progress_of(k) == old(self).progress_of(k),
            forall|k: Seq<char>|
                k != session_id@ ==> final(self).messages_of(k) == old(self).messages_of(k),
    {
        let key = session_id.to_owned();
        let ghost before_p = self.progress_entries@;
        match find_entry(&self.progress_entries, &key) {
            Some(i) => {
                self.progress_entries.remove(i);
                proof {
                    let now_entries = self.progress_entries@;
                    assert(now_entries =~= before_p.remove(i as int));
                    assert forall|a: int, b: int|
                        0 <= a < b < now_entries.len() implies now_entries[a].0@
                        != now_entries[b].0@ by {
                        let a0 = if a < i as int {
                            a
                        } else {
                            a + 1
                        };
                        let b0 = if b < i as int {
                            b
                        } else {
                            b + 1
                        };
                        assert(now_entries[a] == before_p[a0]);
                        assert(now_entries[b] == before_p[b0]);
                    }
                    assert forall|j: int| 0 <= j < now_entries.len() implies (#[trigger] now_entries[j]).0@
                        != session_id@ by {
                        let j0 = if j < i as int {
                            j
                        } else {
                            j + 1
                        };
                        assert(now_entries[j] == before_p[j0]);
                    }
                    lemma_absent_find_none(now_entries, session_id@);
                    assert forall|k: Seq<char>|
                        k != session_id@ implies assoc_find(now_entries, k) == assoc_find(
                        before_p,
                        k,
                    ) by {
                        lemma_find_remove_other(before_p, i as int, k);
                    }
                }
            },
            None => {
                proof {
                    lemma_absent_find_none(before_p, session_id@);
                }
            },
        }
        let ghost before_m = self.message_entries@;
        match find_entry(&self.message_entries, &key) {
            Some(i) => {
                self.message_entries.remove(i);
                proof {
                    let now_entries = self.message_entries@;
                    assert(now_entries =~= before_m.remove(i as int));
                    assert forall|a: int, b: int|
                        0 <= a < b < now_entries.len() implies now_entries[a].0@
                        != now_entries[b].0@ by {
                        let a0 = if a < i as int {
                            a
                        } else {
                            a + 1
                        };
                        let b0 = if b < i as int {
                            b
                        } else {
                            b + 1
                        };
                        assert(now_entries[a] == before_m[a0]);
                        assert(now_entries[b] == before_m[b0]);
                    }
                    assert forall|j: int| 0 <= j < now_entries.len() implies (#[trigger] now_entries[j]).0@
                        != session_id@ by {
                        let j0 = if j < i as int {
                            j
                        } else {
                            j + 1
                        };
                        assert(now_entries[j] == before_m[j0]);
                    }
                    lemma_absent_find_none(now_entries, session_id@);
                    assert forall|k: Seq<char>|
                        k != session_id@ implies assoc_find(now_entries, k) == assoc_find(
                        before_m,
                        k,
                    ) by {
                        lemma_find_remove_other(before_m, i as int, k);
                    }
                }
            },
            None => {
                proof {
                    lemma_absent_find_none(before_m, session_id@);
                }
            },
        }
    }
}

// ---------------------------------------------------------------------------
// Message-type names
// ---------------------------------------------------------------------------

/// Which message type a request names, matching the four severity names
/// without regard to ASCII case.
pub open spec fn spec_parse_message_type(s: Seq<char>) -> Option<AgentMessageType> {
    if spells_ci(s, "info"@) {
        Some(AgentMessageType::Info)
    } else if spells_ci(s, "success"@) {
        Some(AgentMessageType::Success)
    } else if spells_ci(s, "warning"@) {
        Some(AgentMessageType::Warning)
    } else if spells_ci(s, "error"@) {
        Some(AgentMessageType::Error)
    } else {
        None
    }
}

/// Resolve a message-type name — `info`, `success`, `warning` or `error`,
/// in any ASCII case — to its type, or report that the name is unknown.
pub fn parse_message_type(s: &str) -> (r: Option<AgentMessageType>)
    ensures
        r == spec_parse_message_type(s@),
{
    if spells_word_ci(s, "info") {
        Some(AgentMessageType::Info)
    } else if spells_word_ci(s, "success") {
        Some(AgentMessageType::Success)
    } else if spells_word_ci(s, "warning") {
        Some(AgentMessageType::Warning)
    } else if spells_word_ci(s, "error") {
        Some(AgentMessageType::Error)
    } else {
        None
    }
}

} // verus!
