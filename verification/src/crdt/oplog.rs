//! The operation log of the text engine, as far as the library relies on it.
//!
//! A log is modelled as the list of its events in the order in which this
//! replica came to hold them. An event is one inserted or deleted character; it
//! has an identity, made of the name of its author and a number, and names the
//! events that its author had seen last.
use diamond_types::list::OpLog;
use vstd::prelude::*;

verus! {

/// The identity of an event: who made it, and its number among theirs.
pub type OpId = (Seq<char>, usize);

/// One inserted or deleted character.
pub struct TextEvent {
    pub id: OpId,
    /// The latest events that the author had seen.
    pub parents: Set<OpId>,
    /// Where the author saw the character.
    pub pos: int,
    /// The inserted character; none where one is deleted.
    pub inserted: Option<char>,
}

#[verifier::external_type_specification]
#[verifier::external_body]
pub struct ExOpLog(OpLog);

/// The events that a log holds, in the order in which they came to it.
pub uninterp spec fn log_events(log: OpLog) -> Seq<TextEvent>;

/// The names of the authors that a log knows, by their local numbers.
pub uninterp spec fn log_agents(log: OpLog) -> Seq<Seq<char>>;

/// The name of the document that a log belongs to, if it has one.
pub uninterp spec fn log_doc(log: OpLog) -> Option<Seq<char>>;

/// Whether the engine can compute the text of a log.
pub uninterp spec fn log_shows(log: OpLog) -> bool;

/// The text that a set of events amounts to.
pub uninterp spec fn replayed(events: Set<TextEvent>) -> Seq<char>;

/// What an encoded patch holds: the name of the document it belongs to, if it
/// carries one, the events that it builds on, and its own events.
pub uninterp spec fn patch_parts(bytes: Seq<u8>) -> Option<
    (Option<Seq<char>>, Set<(Seq<char>, usize)>, Set<TextEvent>),
>;

/// Whether an engine whose log held exactly these events wrote the bytes.
pub uninterp spec fn patch_from(bytes: Seq<u8>, maker: Set<TextEvent>) -> bool;

/// Whether an engine whose log holds these events gets through reading the bytes:
/// it does not panic, and what it then holds is in order and has a text.
pub uninterp spec fn reads_safely(bytes: Seq<u8>, events: Set<TextEvent>) -> bool;

/// Events that share an identity are the same.
pub open spec fn agree(a: Set<TextEvent>, b: Set<TextEvent>) -> bool {
    forall|x: TextEvent, y: TextEvent| #[trigger]
        a.contains(x) && #[trigger] b.contains(y) && x.id == y.id ==> x == y
}

/// Whether the bytes come from an engine for which no identity stands for another
/// event than for the owner of these.
pub open spec fn from_peer(bytes: Seq<u8>, events: Set<TextEvent>) -> bool {
    exists|maker: Set<TextEvent>| #[trigger] patch_from(bytes, maker) && agree(maker, events)
}

/// Whether a patch for one document can go into a log of another: one of them has
/// no name, or they are the same, or the log holds nothing yet.
pub open spec fn fits(mine: Option<Seq<char>>, theirs: Option<Seq<char>>, empty: bool) -> bool {
    mine is None || theirs is None || mine == theirs || empty
}

/// The identities of a set of events.
pub open spec fn ids(events: Set<TextEvent>) -> Set<OpId> {
    events.map(|e: TextEvent| e.id)
}

/// The parents of every event are among the events.
pub open spec fn complete(events: Set<TextEvent>) -> bool {
    forall|e: TextEvent, p: OpId| #[trigger]
        events.contains(e) && #[trigger] e.parents.contains(p) ==> ids(events).contains(p)
}

/// All events are insertions but for those of an earlier state.
pub open spec fn only_inserts(events: Set<TextEvent>, earlier: Set<TextEvent>) -> bool {
    &&& earlier.subset_of(events)
    &&& complete(earlier)
    &&& forall|e: TextEvent| #[trigger]
        events.contains(e) && !earlier.contains(e) ==> e.inserted is Some
}

/// How many events insert a character.
pub open spec fn times_inserted(events: Set<TextEvent>, c: char) -> nat {
    events.filter(|e: TextEvent| e.inserted == Some(c)).len()
}

/// The text has all that was shown at an earlier state and all that was inserted
/// since, where nothing was deleted since.
pub open spec fn keeps_inserted(events: Set<TextEvent>, text: Seq<char>) -> bool {
    forall|earlier: Set<TextEvent>, c: char|
        only_inserts(events, earlier) ==> text.to_multiset().count(c) == replayed(
            earlier,
        ).to_multiset().count(c) + #[trigger] times_inserted(events.difference(earlier), c)
}

/// Events have different identities, each comes after its parents, and none is
/// made under the engine's own name.
pub open spec fn sound(h: Seq<TextEvent>) -> bool {
    &&& forall|i: int| 0 <= i < h.len() ==> (#[trigger] h[i]).id.0 != "ROOT"@
    &&& forall|i: int, j: int|
        0 <= i < j < h.len() ==> (#[trigger] h[i]).id != (#[trigger] h[j]).id
    &&& forall|i: int, p: OpId|
        0 <= i < h.len() && #[trigger] h[i].parents.contains(p) ==> ids(h.take(i).to_set()).contains(p)
}

/// Whether the event `id` has the parent `parent`.
pub open spec fn is_step(events: Set<TextEvent>, id: OpId, parent: OpId) -> bool {
    exists|e: TextEvent| #[trigger] events.contains(e) && e.id == id && e.parents.contains(parent)
}

/// `path` leads from an event to one of its ancestors, parent by parent.
pub open spec fn is_path(events: Set<TextEvent>, path: Seq<OpId>) -> bool {
    &&& path.len() > 0
    &&& forall|k: int| 0 <= k < path.len() - 1 ==> #[trigger] is_step(events, path[k], path[k + 1])
}

/// Whether `id` is one of the given events, or an ancestor of one.
pub open spec fn covered(events: Set<TextEvent>, known: Set<OpId>, id: OpId) -> bool {
    exists|path: Seq<OpId>| #[trigger]
        is_path(events, path) && known.contains(path[0]) && path.last() == id
}

/// The events that are neither among the given ones nor ancestors of them.
pub open spec fn after(events: Set<TextEvent>, known: Set<OpId>) -> Set<TextEvent> {
    events.filter(|e: TextEvent| !covered(events, known, e.id))
}

/// The identities of the events at the given places.
pub open spec fn ids_at(h: Seq<TextEvent>, places: Seq<usize>) -> Set<OpId> {
    Set::new(
        |id: OpId|
            exists|k: int| 0 <= k < places.len() && h[(#[trigger] places[k]) as int].id == id,
    )
}

/// Whether the event at place `i` is nobody's parent.
pub open spec fn is_tip(h: Seq<TextEvent>, i: int) -> bool {
    &&& 0 <= i < h.len()
    &&& forall|j: int| 0 <= j < h.len() ==> !(#[trigger] h[j]).parents.contains(h[i].id)
}

/// The identities of the events that are nobody's parent.
pub open spec fn tip_ids(h: Seq<TextEvent>) -> Set<OpId> {
    Set::new(|id: OpId| exists|i: int| #[trigger] is_tip(h, i) && h[i].id == id)
}

/// The places name a version: they are in use and in order, and none is an
/// ancestor of another.
pub open spec fn is_version(h: Seq<TextEvent>, places: Seq<usize>) -> bool {
    &&& forall|k: int| 0 <= k < places.len() ==> (#[trigger] places[k]) < h.len()
    &&& forall|k: int, m: int|
        0 <= k < m < places.len() ==> (#[trigger] places[k]) < (#[trigger] places[m])
    &&& forall|k: int, m: int|
        0 <= k < places.len() && 0 <= m < places.len() && k != m ==> !covered(
            h.to_set(),
            set![h[(#[trigger] places[k]) as int].id],
            h[(#[trigger] places[m]) as int].id,
        )
}

/// A set of events after others have been folded in: those whose identity is
/// not there yet.
pub open spec fn folded(events: Set<TextEvent>, more: Set<TextEvent>) -> Set<TextEvent> {
    events.union(more.filter(|e: TextEvent| !ids(events).contains(e.id)))
}

/// The text with `s` put in at `pos`.
pub open spec fn with_inserted(text: Seq<char>, pos: int, s: Seq<char>) -> Seq<char> {
    text.take(pos) + s + text.skip(pos)
}

/// The text without the characters from `from` to `to`.
pub open spec fn with_deleted(text: Seq<char>, from: int, to: int) -> Seq<char> {
    text.take(from) + text.skip(to)
}

/// `h` with events of one author behind it, each made when all before it had been
/// seen.
pub open spec fn authored(h: Seq<TextEvent>, next: Seq<TextEvent>, agent: Seq<char>) -> bool {
    &&& h.is_prefix_of(next)
    &&& forall|i: int|
        h.len() <= i < next.len() ==> (#[trigger] next[i]).id.0 == agent && next[i].parents
            == tip_ids(next.take(i))
}

/// The events from place `n` on put a text in at `pos`, character by character.
pub open spec fn put_in(h: Seq<TextEvent>, n: int, pos: int, s: Seq<char>) -> bool {
    forall|i: int|
        n <= i < h.len() ==> (#[trigger] h[i]).pos == pos + (i - n) && h[i].inserted == Some(
            s[i - n],
        )
}

/// The events from place `n` on each take out the character at `pos`.
pub open spec fn taken_out(h: Seq<TextEvent>, n: int, pos: int) -> bool {
    forall|i: int| n <= i < h.len() ==> (#[trigger] h[i]).pos == pos && h[i].inserted is None
}

/// `OpLog::new`: a log that holds nothing.
pub assume_specification[ OpLog::new ]() -> (r: OpLog)
    ensures
        log_events(r).len() == 0,
        log_agents(r).len() == 0,
        log_doc(r) is None,
        log_shows(r),
;

/// `OpLog::get_or_create_agent_id`: the local number of an author, which is given
/// out where there is none yet. The name `ROOT` is the engine's own.
pub assume_specification[ OpLog::get_or_create_agent_id ](log: &mut OpLog, name: &str) -> (r: u32)
    requires
        name@ != "ROOT"@,
    ensures
        log_events(*final(log)) == log_events(*old(log)),
        log_doc(*final(log)) == log_doc(*old(log)),
        log_shows(*final(log)) == log_shows(*old(log)),
        log_agents(*old(log)).is_prefix_of(log_agents(*final(log))),
        r < log_agents(*final(log)).len(),
        log_agents(*final(log))[r as int] == name@,
;

/// `OpLog::checkout` at the log's own version, and the content of the branch that
/// it returns: the text that the log's events amount to. It depends on which
/// events the log holds and not on the order in which they came; a log without
/// events has the empty text. A deletion takes away a character that its author had
/// seen, and nothing else does. A log that was made to hold an event at a place that
/// its text does not have is left out.
#[verifier::external_body]
pub(crate) fn log_text(log: &OpLog) -> (r: String)
    requires
        log_shows(*log),
    ensures
        r@ == replayed(log_events(*log).to_set()),
        log_events(*log).len() == 0 ==> r@.len() == 0,
        sound(log_events(*log)) ==> keeps_inserted(log_events(*log).to_set(), r@),
{
    log.checkout(log.local_version_ref()).content().to_string()
}

/// `OpLog::add_insert`: appends the events that insert a text at a place of the
/// current text, one for each character, under the given author. Each is made on
/// top of all events before it.
#[verifier::external_body]
pub(crate) fn log_insert(log: &mut OpLog, agent: u32, pos: usize, s: &str)
    requires
        log_shows(*old(log)),
        agent < log_agents(*old(log)).len(),
        pos <= replayed(log_events(*old(log)).to_set()).len(),
        s@.len() > 0,
    ensures
        log_shows(*final(log)),
        log_doc(*final(log)) == log_doc(*old(log)),
        log_agents(*final(log)) == log_agents(*old(log)),
        log_events(*final(log)).len() == log_events(*old(log)).len() + s@.len(),
        authored(
            log_events(*old(log)),
            log_events(*final(log)),
            log_agents(*old(log))[agent as int],
        ),
        put_in(log_events(*final(log)), log_events(*old(log)).len() as int, pos as int, s@),
        sound(log_events(*old(log))) ==> sound(log_events(*final(log))),
        replayed(log_events(*final(log)).to_set()) == with_inserted(
            replayed(log_events(*old(log)).to_set()),
            pos as int,
            s@,
        ),
{
    log.add_insert(agent, pos, s);
}

/// `OpLog::add_delete_without_content`: appends the events that delete a stretch
/// of the current text, one for each character, under the given author. Each is
/// made on top of all events before it.
#[verifier::external_body]
pub(crate) fn log_delete(log: &mut OpLog, agent: u32, from: usize, len: usize)
    requires
        log_shows(*old(log)),
        agent < log_agents(*old(log)).len(),
        0 < len,
        from + len <= replayed(log_events(*old(log)).to_set()).len(),
    ensures
        log_shows(*final(log)),
        log_doc(*final(log)) == log_doc(*old(log)),
        log_agents(*final(log)) == log_agents(*old(log)),
        log_events(*final(log)).len() == log_events(*old(log)).len() + len,
        authored(
            log_events(*old(log)),
            log_events(*final(log)),
            log_agents(*old(log))[agent as int],
        ),
        taken_out(log_events(*final(log)), log_events(*old(log)).len() as int, from as int),
        sound(log_events(*old(log))) ==> sound(log_events(*final(log))),
        replayed(log_events(*final(log)).to_set()) == with_deleted(
            replayed(log_events(*old(log)).to_set()),
            from as int,
            from + len,
        ),
{
    log.add_delete_without_content(agent, from..from + len);
}

/// `OpLog::local_version_ref`: the places of the events that are nobody's parent.
#[verifier::external_body]
pub(crate) fn log_version(log: &OpLog) -> (r: Vec<usize>)
    ensures
        forall|k: int, m: int| 0 <= k < m < r@.len() ==> (#[trigger] r@[k]) < (#[trigger] r@[m]),
        forall|i: int|
            is_tip(log_events(*log), i) <==> exists|k: int| 0 <= k < r@.len() && #[trigger] r@[k] == i,
{
    log.local_version_ref().to_vec()
}

/// `OpLog::local_to_remote_time`: the identity of the event at a place.
#[verifier::external_body]
pub(crate) fn log_id_at(log: &OpLog, place: usize) -> (r: (String, usize))
    requires
        place < log_events(*log).len(),
    ensures
        (r.0@, r.1) == log_events(*log)[place as int].id,
{
    let id = log.local_to_remote_time(place);
    (id.agent.to_string(), id.seq)
}

/// `OpLog::try_remote_to_local_time`: the place of the event with an identity,
/// where the log holds one. The name `ROOT` is the engine's own.
#[verifier::external_body]
pub(crate) fn log_place_of(log: &OpLog, agent: &str, seq: usize) -> (r: Option<usize>)
    requires
        sound(log_events(*log)),
        agent@ != "ROOT"@,
    ensures
        r is Some <==> ids(log_events(*log).to_set()).contains((agent@, seq)),
        r matches Some(i) ==> i < log_events(*log).len() && log_events(*log)[i as int].id == (
            agent@,
            seq,
        ),
{
    let id = diamond_types::list::remote_ids::RemoteId { agent: agent.into(), seq };
    log.try_remote_to_local_time(&id).ok()
}

/// `OpLog::version_contains_time` for the version of a single event: whether the
/// second event is the first, or an ancestor of it.
#[verifier::external_body]
pub(crate) fn log_reaches(log: &OpLog, from: usize, target: usize) -> (r: bool)
    requires
        sound(log_events(*log)),
        from < log_events(*log).len(),
        target < log_events(*log).len(),
    ensures
        r == covered(
            log_events(*log).to_set(),
            set![log_events(*log)[from as int].id],
            log_events(*log)[target as int].id,
        ),
{
    log.version_contains_time(&[from], target)
}

/// `OpLog::is_empty`: whether the log holds no event.
pub assume_specification[ OpLog::is_empty ](log: &OpLog) -> (r: bool)
    ensures
        r == (log_events(*log).len() == 0),
;

/// `OpLog::iter_range_since`: whether the log holds events that are neither at
/// the given places nor ancestors of those.
#[verifier::external_body]
pub(crate) fn log_has_since(log: &OpLog, since: &Vec<usize>) -> (r: bool)
    requires
        sound(log_events(*log)),
        forall|k: int| 0 <= k < since@.len() ==> (#[trigger] since@[k]) < log_events(*log).len(),
    ensures
        r == exists|e: TextEvent| #[trigger]
            after(
                log_events(*log).to_set(),
                ids_at(log_events(*log), since@),
            ).contains(e),
{
    log.iter_range_since(since).next().is_some()
}

/// `OpLog::encode_from` as a patch: the encoded events that are neither at the
/// given places nor ancestors of those, which build on the events at those
/// places. It carries the name of the log's document. An engine for which no
/// identity stands for another event than here gets through reading it.
#[verifier::external_body]
pub(crate) fn log_encode_since(log: &OpLog, since: &[usize]) -> (r: Vec<u8>)
    requires
        sound(log_events(*log)),
        log_shows(*log),
        is_version(log_events(*log), since@),
    ensures
        patch_from(r@, log_events(*log).to_set()),
        forall|h: Set<TextEvent>|
            agree(log_events(*log).to_set(), h) ==> #[trigger] reads_safely(r@, h),
        patch_parts(r@) == Some(
            (
                log_doc(*log),
                ids_at(log_events(*log), since@),
                after(log_events(*log).to_set(), ids_at(log_events(*log), since@)),
            ),
        ),
{
    log.encode_from(diamond_types::list::encoding::ENCODE_PATCH, since)
}

/// `OpLog::encode` in full: all events of the log, encoded, building on nothing.
/// It carries the name of the log's document. An engine for which no identity
/// stands for another event than here gets through reading it.
#[verifier::external_body]
pub(crate) fn log_encode_full(log: &OpLog) -> (r: Vec<u8>)
    requires
        sound(log_events(*log)),
        log_shows(*log),
    ensures
        patch_from(r@, log_events(*log).to_set()),
        forall|h: Set<TextEvent>|
            agree(log_events(*log).to_set(), h) ==> #[trigger] reads_safely(r@, h),
        patch_parts(r@) == Some(
            (log_doc(*log), Set::<OpId>::empty(), log_events(*log).to_set()),
        ),
{
    log.encode(diamond_types::list::encoding::ENCODE_FULL)
}

/// `OpLog::decode_and_add`: folds the events of a patch in. It fails, and leaves
/// the log as it was, where the bytes are no patch or the log lacks an event that
/// the patch builds on. A patch that an engine wrote, and for which no identity
/// stands for another event than here, is taken if the log holds what it builds on
/// and belongs to the same document, and then events that the log holds already are
/// passed over. Of another patch that is taken it is stated only that its events
/// come behind those of the log. Bytes on which the engine panics, and patches that
/// leave a log without a text, are left out.
#[verifier::external_body]
pub(crate) fn log_merge(log: &mut OpLog, bytes: &[u8]) -> (r: bool)
    requires
        sound(log_events(*old(log))),
        log_shows(*old(log)),
        reads_safely(bytes@, log_events(*old(log)).to_set()),
    ensures
        log_agents(*old(log)).is_prefix_of(log_agents(*final(log))),
        log_events(*old(log)).is_prefix_of(log_events(*final(log))),
        sound(log_events(*final(log))),
        log_shows(*final(log)),
        !r ==> log_events(*final(log)) == log_events(*old(log)) && log_doc(*final(log)) == log_doc(
            *old(log),
        ),
        r ==> patch_parts(bytes@) is Some && patch_parts(bytes@)->Some_0.1.subset_of(
            ids(log_events(*old(log)).to_set()),
        ),
        from_peer(bytes@, log_events(*old(log)).to_set()) ==> match patch_parts(bytes@) {
            Some((doc, base, events)) => {
                &&& r <==> fits(log_doc(*old(log)), doc, log_events(*old(log)).len() == 0)
                    && base.subset_of(ids(log_events(*old(log)).to_set()))
                &&& r ==> log_events(*final(log)).to_set() == folded(
                    log_events(*old(log)).to_set(),
                    events,
                )
                &&& r ==> log_doc(*final(log)) == (if doc is Some {
                    doc
                } else {
                    log_doc(*old(log))
                })
            },
            None => !r,
        },
{
    log.decode_and_add(bytes).is_ok()
}

} // verus!
