//! The application state: a read-only contact directory and the chat
//! rooms with their message logs. A chat can be created only between
//! users who list each other as contacts; each room's log is kept
//! ordered by timestamp, most recent first.

use vstd::prelude::*;

use crate::messages::{Chat, Message};
use crate::text::{contains_u64, dec_digits, push_u64_dec};
use vstd::multiset::Multiset;
use vstd::string::StringSliceAdditionalSpecFns;

verus! {

/// Milliseconds since the Unix epoch, or zero if the system clock
/// reads earlier than the epoch.
///
/// Relies on `std::time::SystemTime::now`: the result depends on the
/// wall clock, so nothing is promised of it.
#[verifier::external_body]
pub fn timestamp() -> u64 {
    match std::time::SystemTime::now().duration_since(std::time::UNIX_EPOCH) {
        Ok(d) => d.as_millis() as u64,
        Err(_) => 0,
    }
}

/// Why a chat operation failed.
#[derive(Clone, Copy, PartialEq, Eq, Structural, Debug)]
pub enum ChatError {
    /// A chat between the same two participants already exists.
    AlreadyExists,
    /// A participant is not in the contact directory at all.
    UnknownUser,
    /// `who` does not list `whom` in their contact list.
    MissingContact { who: u64, whom: u64 },
    /// No chat with this id exists.
    UnknownChat { chat_id: u64 },
}

impl ChatError {
    /// The error's text, byte for byte.
    pub open spec fn spec_message(&self) -> Seq<u8> {
        match *self {
            ChatError::AlreadyExists => "Chat already exists".spec_bytes(),
            ChatError::UnknownUser => "unable to create chat".spec_bytes(),
            ChatError::MissingContact { who, whom } => "user ".spec_bytes() + dec_digits(
                who as int,
            ) + " does not have user ".spec_bytes() + dec_digits(whom as int)
                + " in their contact list.".spec_bytes(),
            ChatError::UnknownChat { chat_id } => "Unable to find chat with id ".spec_bytes()
                + dec_digits(chat_id as int),
        }
    }

    /// A human-readable description naming the failing users or chat.
    pub fn message(&self) -> (v: Vec<u8>)
        ensures
            v@ == self.spec_message(),
    {
        match *self {
            ChatError::AlreadyExists => {
                let mut v: Vec<u8> = Vec::new();
                let lit = "Chat already exists";
                v.extend_from_slice(lit.as_bytes());
                assert(v@ =~= self.spec_message());
                v
            },
            ChatError::UnknownUser => {
                let mut v: Vec<u8> = Vec::new();
                let lit = "unable to create chat";
                v.extend_from_slice(lit.as_bytes());
                assert(v@ =~= self.spec_message());
                v
            },
            ChatError::MissingContact { who, whom } => {
                let mut v: Vec<u8> = Vec::new();
                v.extend_from_slice("user ".as_bytes());
                push_u64_dec(who, &mut v);
                v.extend_from_slice(" does not have user ".as_bytes());
                push_u64_dec(whom, &mut v);
                v.extend_from_slice(" in their contact list.".as_bytes());
                assert(v@ =~= self.spec_message());
                v
            },
            ChatError::UnknownChat { chat_id } => {
                let mut v: Vec<u8> = Vec::new();
                v.extend_from_slice("Unable to find chat with id ".as_bytes());
                push_u64_dec(chat_id, &mut v);
                assert(v@ =~= self.spec_message());
                v
            },
        }
    }
}

/// A chat and its message log, newest first.
pub struct ChatRoom {
    pub chat: Chat,
    pub log: Vec<Message>,
}

impl ChatRoom {
    /// A fresh room with an empty log.
    pub fn new(chat: Chat) -> (r: Self)
        ensures
            r.chat == chat,
            r.log@ == Seq::<Message>::empty(),
    {
        ChatRoom { chat, log: Vec::new() }
    }
}

/// The log order invariant: timestamps never increase along the log.
pub open spec fn sorted_desc(log: Seq<Message>) -> bool {
    forall|i: int, j: int| 0 <= i < j < log.len() ==> log[i].timestamp >= log[j].timestamp
}

/// Where a message with timestamp `ts` goes in a descending log: after
/// every entry whose timestamp is at least `ts`.
pub open spec fn insert_pos(log: Seq<Message>, ts: u64) -> int
    decreases log.len(),
{
    if log.len() == 0 {
        0
    } else if log[0].timestamp >= ts {
        1 + insert_pos(log.drop_first(), ts)
    } else {
        0
    }
}

/// A descending log with `m` inserted at its position.
pub open spec fn insert_desc(log: Seq<Message>, m: Message) -> Seq<Message> {
    let k = insert_pos(log, m.timestamp);
    log.take(k) + seq![m] + log.skip(k)
}

/// The contact list of `user`: the first directory entry with that key.
pub open spec fn contact_list(contacts: Seq<(u64, Vec<u64>)>, user: u64) -> Option<Seq<u64>>
    decreases contacts.len(),
{
    if contacts.len() == 0 {
        None
    } else if contacts[0].0 == user {
        Some(contacts[0].1@)
    } else {
        contact_list(contacts.drop_first(), user)
    }
}

/// Some room already pairs `a` with `b`, in that order.
pub open spec fn pair_taken(rooms: Seq<ChatRoom>, a: u64, b: u64) -> bool {
    exists|i: int|
        0 <= i < rooms.len() && #[trigger] rooms[i].chat.participant_ids@[0] == a
            && rooms[i].chat.participant_ids@[1] == b
}

/// Index of the first room with chat id `chat_id`.
pub open spec fn room_index(rooms: Seq<ChatRoom>, chat_id: u64) -> Option<int>
    decreases rooms.len(),
{
    if rooms.len() == 0 {
        None
    } else if rooms[0].chat.id == chat_id {
        Some(0)
    } else {
        match room_index(rooms.drop_first(), chat_id) {
            Some(i) => Some(1 + i),
            None => None,
        }
    }
}

/// `user` takes part in the room's chat.
pub open spec fn participates(room: ChatRoom, user: u64) -> bool {
    room.chat.participant_ids@[0] == user || room.chat.participant_ids@[1] == user
}

/// The chats of every room that `user` takes part in, in room order.
pub open spec fn spec_user_chats(rooms: Seq<ChatRoom>, user: u64) -> Seq<Chat>
    decreases rooms.len(),
{
    if rooms.len() == 0 {
        Seq::empty()
    } else {
        let rest = spec_user_chats(rooms.drop_first(), user);
        if participates(rooms[0], user) {
            seq![rooms[0].chat] + rest
        } else {
            rest
        }
    }
}

/// The chat store: a contact directory fixed at construction, and the
/// rooms created so far.
pub struct ChatService {
    pub contacts: Vec<(u64, Vec<u64>)>,
    pub rooms: Vec<ChatRoom>,
}

impl ChatService {
    /// Every room's log is ordered newest-first.
    pub open spec fn wf(&self) -> bool {
        forall|i: int| 0 <= i < self.rooms@.len() ==> sorted_desc(#[trigger] self.rooms@[i].log@)
    }

    /// What `add_chat` answers, determined by the current state.
    pub open spec fn spec_add_chat_result(&self, chat: Chat) -> Result<(), ChatError> {
        let a = chat.participant_ids@[0];
        let b = chat.participant_ids@[1];
        if pair_taken(self.rooms@, a, b) {
            Err(ChatError::AlreadyExists)
        } else {
            match (contact_list(self.contacts@, a), contact_list(self.contacts@, b)) {
                (Some(la), Some(lb)) => if la.contains(b) && lb.contains(a) {
                    Ok(())
                } else if !la.contains(b) {
                    Err(ChatError::MissingContact { who: a, whom: b })
                } else {
                    Err(ChatError::MissingContact { who: b, whom: a })
                },
                _ => Err(ChatError::UnknownUser),
            }
        }
    }

    /// An empty service: no contacts, no rooms. With no contacts, every
    /// chat creation fails.
    pub fn default() -> (s: Self)
        ensures
            s.contacts@ == Seq::<(u64, Vec<u64>)>::empty(),
            s.rooms@ == Seq::<ChatRoom>::empty(),
            s.wf(),
    {
        ChatService { contacts: Vec::new(), rooms: Vec::new() }
    }

    /// A service over the given contact directory, with no rooms yet.
    pub fn with_contacts(contacts: Vec<(u64, Vec<u64>)>) -> (s: Self)
        ensures
            s.contacts == contacts,
            s.rooms@ == Seq::<ChatRoom>::empty(),
            s.wf(),
    {
        ChatService { contacts, rooms: Vec::new() }
    }

    /// First directory entry for `user`, if any.
    fn lookup_contacts(&self, user: u64) -> (r: Option<&Vec<u64>>)
        ensures
            match r {
                Some(l) => contact_list(self.contacts@, user) == Some(l@),
                None => contact_list(self.contacts@, user) is None,
            },
    {
        proof {
            assert(self.contacts@.skip(0) =~= self.contacts@);
        }
        let mut i: usize = 0;
        while i < self.contacts.len()
            invariant
                0 <= i <= self.contacts@.len(),
                contact_list(self.contacts@, user) == contact_list(
                    self.contacts@.skip(i as int),
                    user,
                ),
            decreases self.contacts@.len() - i,
        {
            proof {
                assert(self.contacts@.skip(i as int).drop_first() =~= self.contacts@.skip(
                    i + 1,
                ));
                assert(self.contacts@.skip(i as int)[0] == self.contacts@[i as int]);
            }
            if self.contacts[i].0 == user {
                return Some(&self.contacts[i].1);
            }
            i = i + 1;
        }
        proof {
            assert(self.contacts@.skip(i as int).len() == 0);
        }
        None
    }

    /// True when some room already pairs `a` with `b` in that order.
    fn pair_exists(&self, a: u64, b: u64) -> (r: bool)
        ensures
            r <==> pair_taken(self.rooms@, a, b),
    {
        let mut i: usize = 0;
        while i < self.rooms.len()
            invariant
                0 <= i <= self.rooms@.len(),
                forall|k: int|
                    0 <= k < i ==> !(#[trigger] self.rooms@[k].chat.participant_ids@[0] == a
                        && self.rooms@[k].chat.participant_ids@[1] == b),
            decreases self.rooms@.len() - i,
        {
            let ids = &self.rooms[i].chat.participant_ids;
            if ids[0] == a && ids[1] == b {
                assert(pair_taken(self.rooms@, a, b));
                return true;
            }
            i = i + 1;
        }
        false
    }

    /// Index of the first room whose chat id is `chat_id`.
    fn find_room(&self, chat_id: u64) -> (r: Option<usize>)
        ensures
            match r {
                Some(i) => room_index(self.rooms@, chat_id) == Some(i as int) && i
                    < self.rooms@.len(),
                None => room_index(self.rooms@, chat_id) is None,
            },
    {
        proof {
            assert(self.rooms@.skip(0) =~= self.rooms@);
        }
        let mut i: usize = 0;
        while i < self.rooms.len()
            invariant
                0 <= i <= self.rooms@.len(),
                room_index(self.rooms@, chat_id) == (match room_index(
                    self.rooms@.skip(i as int),
                    chat_id,
                ) {
                    Some(k) => Some(k + i),
                    None => None::<int>,
                }),
            decreases self.rooms@.len() - i,
        {
            proof {
                assert(self.rooms@.skip(i as int).drop_first() =~= self.rooms@.skip(i + 1));
                assert(self.rooms@.skip(i as int)[0] == self.rooms@[i as int]);
            }
            if self.rooms[i].chat.id == chat_id {
                return Some(i);
            }
            i = i + 1;
        }
        proof {
            assert(self.rooms@.skip(i as int).len() == 0);
        }
        None
    }

    /// Creates a chat. Fails if a room with the same participant pair
    /// exists, if either participant is not in the directory, or if
    /// either does not list the other; otherwise a room with an empty
    /// log is appended.
    pub fn add_chat(&mut self, chat: Chat) -> (r: Result<(), ChatError>)
        requires
            old(self).wf(),
        ensures
            final(self).wf(),
            final(self).contacts == old(self).contacts,
            r == old(self).spec_add_chat_result(chat),
            r is Ok ==> {
                &&& final(self).rooms@.len() == old(self).rooms@.len() + 1
                &&& final(self).rooms@.drop_last() == old(self).rooms@
                &&& final(self).rooms@.last().chat == chat
                &&& final(self).rooms@.last().log@ == Seq::<Message>::empty()
            },
            r is Err ==> final(self).rooms == old(self).rooms,
    {
        let user_a = chat.participant_ids[0];
        let user_b = chat.participant_ids[1];
        if self.pair_exists(user_a, user_b) {
            return Err(ChatError::AlreadyExists);
        }
        let la = match self.lookup_contacts(user_a) {
            Some(l) => l,
            None => {
                return Err(ChatError::UnknownUser);
            },
        };
        let a_has_b = contains_u64(la, user_b);
        let lb = match self.lookup_contacts(user_b) {
            Some(l) => l,
            None => {
                return Err(ChatError::UnknownUser);
            },
        };
        let b_has_a = contains_u64(lb, user_a);
        if a_has_b && b_has_a {
            let ghost old_rooms = self.rooms@;
            self.rooms.push(ChatRoom::new(chat));
            proof {
                assert(self.rooms@.drop_last() =~= old_rooms);
                assert(forall|i: int|
                    0 <= i < old_rooms.len() ==> self.rooms@[i] == old_rooms[i]);
            }
            Ok(())
        } else if !a_has_b {
            Err(ChatError::MissingContact { who: user_a, whom: user_b })
        } else {
            Err(ChatError::MissingContact { who: user_b, whom: user_a })
        }
    }

    /// Appends a message to the chat with id `chat_id`, keeping that
    /// room's log ordered newest-first; fails if no room has that id.
    pub fn send_message(&mut self, chat_id: u64, message: Message) -> (r: Result<(), ChatError>)
        requires
            old(self).wf(),
        ensures
            final(self).wf(),
            final(self).contacts == old(self).contacts,
            match room_index(old(self).rooms@, chat_id) {
                Some(i) => {
                    &&& r == Ok::<(), ChatError>(())
                    &&& final(self).rooms@.len() == old(self).rooms@.len()
                    &&& forall|j: int|
                        0 <= j < old(self).rooms@.len() && j != i ==> final(self).rooms@[j]
                            == old(self).rooms@[j]
                    &&& final(self).rooms@[i].chat == old(self).rooms@[i].chat
                    &&& final(self).rooms@[i].log@ == insert_desc(
                        old(self).rooms@[i].log@,
                        message,
                    )
                },
                None => r == Err::<(), ChatError>(ChatError::UnknownChat { chat_id })
                    && final(self).rooms == old(self).rooms,
            },
    {
        let i = match self.find_room(chat_id) {
            Some(i) => i,
            None => {
                return Err(ChatError::UnknownChat { chat_id });
            },
        };
        let ghost old_rooms = self.rooms@;
        let mut room = self.rooms.remove(i);
        let ghost old_log = room.log@;
        let ts = message.timestamp;
        let mut k: usize = 0;
        while k < room.log.len() && room.log[k].timestamp >= ts
            invariant
                0 <= k <= room.log@.len(),
                room.log@ == old_log,
                forall|j: int| 0 <= j < k ==> old_log[j].timestamp >= ts,
            decreases room.log@.len() - k,
        {
            k = k + 1;
        }
        proof {
            lemma_insert_pos_char(old_log, ts, k as int);
            assert(sorted_desc(old_log));
        }
        room.log.insert(k, message);
        proof {
            assert(room.log@ =~= insert_desc(old_log, message));
            lemma_insert_desc_sorted(old_log, message);
        }
        self.rooms.insert(i, room);
        proof {
            assert(self.rooms@.len() == old_rooms.len());
            assert(forall|j: int|
                0 <= j < old_rooms.len() && j != i ==> self.rooms@[j] == old_rooms[j]);
        }
        Ok(())
    }

    /// The log of the chat with id `chat_id`, ordered by timestamp with
    /// the most recent message first; fails if no room has that id.
    pub fn get_messages(&self, chat_id: u64) -> (r: Result<Vec<Message>, ChatError>)
        requires
            self.wf(),
        ensures
            match room_index(self.rooms@, chat_id) {
                Some(i) => r matches Ok(v) && v@ == self.rooms@[i].log@ && sorted_desc(v@),
                None => r == Err::<Vec<Message>, ChatError>(ChatError::UnknownChat { chat_id }),
            },
    {
        let i = match self.find_room(chat_id) {
            Some(i) => i,
            None => {
                return Err(ChatError::UnknownChat { chat_id });
            },
        };
        let log = &self.rooms[i].log;
        let mut v: Vec<Message> = Vec::new();
        let mut j: usize = 0;
        while j < log.len()
            invariant
                0 <= j <= log@.len(),
                v@.len() == j,
                forall|k: int| 0 <= k < j ==> v@[k] == log@[k],
            decreases log@.len() - j,
        {
            v.push(log[j].clone());
            j = j + 1;
        }
        assert(v@ =~= log@);
        Ok(v)
    }

    /// The chats that `user_id` takes part in, in creation order.
    pub fn get_user_chats(&self, user_id: u64) -> (r: Vec<Chat>)
        ensures
            r@ == spec_user_chats(self.rooms@, user_id),
    {
        let mut v: Vec<Chat> = Vec::new();
        proof {
            assert(self.rooms@.skip(0) =~= self.rooms@);
            assert(Seq::<Chat>::empty() + spec_user_chats(self.rooms@, user_id) =~= spec_user_chats(
                self.rooms@,
                user_id,
            ));
        }
        let mut i: usize = 0;
        while i < self.rooms.len()
            invariant
                0 <= i <= self.rooms@.len(),
                spec_user_chats(self.rooms@, user_id) == v@ + spec_user_chats(
                    self.rooms@.skip(i as int),
                    user_id,
                ),
            decreases self.rooms@.len() - i,
        {
            proof {
                assert(self.rooms@.skip(i as int).drop_first() =~= self.rooms@.skip(i + 1));
                assert(self.rooms@.skip(i as int)[0] == self.rooms@[i as int]);
            }
            let ids = &self.rooms[i].chat.participant_ids;
            if ids[0] == user_id || ids[1] == user_id {
                let ghost old_v = v@;
                v.push(self.rooms[i].chat);
                proof {
                    assert(old_v + (seq![self.rooms@[i as int].chat] + spec_user_chats(
                        self.rooms@.skip(i + 1),
                        user_id,
                    )) =~= v@ + spec_user_chats(self.rooms@.skip(i + 1), user_id));
                }
            } else {
                assert(!participates(self.rooms@[i as int], user_id));
            }
            i = i + 1;
        }
        proof {
            assert(spec_user_chats(self.rooms@.skip(i as int), user_id) =~= Seq::<Chat>::empty());
            assert(v@ + Seq::<Chat>::empty() =~= v@);
        }
        v
    }
}

/// `insert_pos` is exactly the boundary a scan finds: every entry
/// before it is at least `ts`, and the entry at it (if any) is older.
proof fn lemma_insert_pos_char(log: Seq<Message>, ts: u64, k: int)
    requires
        0 <= k <= log.len(),
        forall|j: int| 0 <= j < k ==> log[j].timestamp >= ts,
        k < log.len() ==> log[k].timestamp < ts,
    ensures
        insert_pos(log, ts) == k,
    decreases log.len(),
{
    if log.len() == 0 {
    } else if k == 0 {
    } else {
        assert(log[0].timestamp >= ts);
        lemma_insert_pos_char(log.drop_first(), ts, k - 1);
    }
}

/// Inserting into a descending log keeps it descending, and the new log
/// holds exactly the old messages plus the new one.
pub proof fn lemma_insert_desc_sorted(log: Seq<Message>, m: Message)
    requires
        sorted_desc(log),
    ensures
        sorted_desc(insert_desc(log, m)),
        insert_desc(log, m).len() == log.len() + 1,
        insert_desc(log, m).to_multiset() == log.to_multiset().insert(m),
{
    let k = insert_pos(log, m.timestamp);
    lemma_insert_pos_props(log, m.timestamp);
    let r = insert_desc(log, m);
    assert(forall|j: int| 0 <= j < k ==> r[j] == log[j]);
    assert(r[k] == m);
    assert(forall|j: int| k < j < r.len() ==> r[j] == log[j - 1]);
    assert forall|i: int, j: int| 0 <= i < j < r.len() implies r[i].timestamp
        >= r[j].timestamp by {
        if i < k && j == k {
            assert(log[i].timestamp >= m.timestamp);
        } else if i == k && j > k {
            assert(log[j - 1].timestamp < m.timestamp);
        }
    }
    assert(r =~= (log.take(k) + seq![m]) + log.skip(k));
    vstd::seq_lib::lemma_multiset_commutative(log.take(k) + seq![m], log.skip(k));
    vstd::seq_lib::lemma_multiset_commutative(log.take(k), seq![m]);
    vstd::seq_lib::lemma_multiset_commutative(log.take(k), log.skip(k));
    assert(log.take(k) + log.skip(k) =~= log);
    assert(seq![m].to_multiset() == Multiset::<Message>::empty().insert(m)) by {
        seq![m].to_multiset_ensures();
        assert(seq![m].drop_first() =~= Seq::<Message>::empty());
    }
    assert(r.to_multiset() =~= log.to_multiset().insert(m));
}

/// Everything before `insert_pos` is at least `ts`; the entry at it, if
/// any, is older.
proof fn lemma_insert_pos_props(log: Seq<Message>, ts: u64)
    ensures
        0 <= insert_pos(log, ts) <= log.len(),
        forall|j: int| 0 <= j < insert_pos(log, ts) ==> log[j].timestamp >= ts,
        insert_pos(log, ts) < log.len() ==> log[insert_pos(log, ts)].timestamp < ts,
    decreases log.len(),
{
    if log.len() > 0 && log[0].timestamp >= ts {
        lemma_insert_pos_props(log.drop_first(), ts);
        assert(forall|j: int|
            1 <= j < insert_pos(log, ts) ==> log[j] == log.drop_first()[j - 1]);
    }
}

/// Creating the same chat a second time fails: once `add_chat` accepts
/// a chat, the same participant pair (and so the same chat) is refused
/// from the resulting state on.
pub proof fn lemma_add_chat_twice(s1: ChatService, s2: ChatService, chat: Chat)
    requires
        s1.spec_add_chat_result(chat) is Ok,
        s2.rooms@.len() == s1.rooms@.len() + 1,
        s2.rooms@.drop_last() == s1.rooms@,
        s2.rooms@.last().chat == chat,
    ensures
        s2.spec_add_chat_result(chat) == Err::<(), ChatError>(ChatError::AlreadyExists),
{
    let a = chat.participant_ids@[0];
    let b = chat.participant_ids@[1];
    let last = s2.rooms@.len() - 1;
    assert(s2.rooms@[last].chat.participant_ids@[0] == a);
    assert(pair_taken(s2.rooms@, a, b));
}

} // verus!
