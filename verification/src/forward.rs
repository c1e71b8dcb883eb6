//! What one recorded line, or one aside, is forwarded as.

use crate::btw::BtwEntry;
use crate::json::{Json, JsonObject, Tree};
use crate::{json, time};
use vstd::prelude::*;

verus! {

/// An update of a session as `agent_client_protocol` holds it.
#[verifier::external_type_specification]
#[verifier::external_body]
pub struct ExSessionUpdate(agent_client_protocol::SessionUpdate);

/// What a recorded line says on its surface: the method under which it was
/// recorded, and the text of its parameters.
#[derive(Debug)]
pub struct RawLinePeek {
    pub method: Option<String>,
    pub params: Option<String>,
}

/// What became of parameters that were fitted to the longest line that a client
/// reads.
#[derive(Debug)]
pub enum Refit {
    /// They are short enough as they are.
    Unchanged,
    /// They were shortened to this text.
    Fitted(String),
    /// They cannot be shortened enough.
    Unfittable,
}

/// A typed session notification.
#[derive(Debug)]
pub struct SessionNotice {
    pub session_id: String,
    pub update: agent_client_protocol::SessionUpdate,
    pub meta: Option<JsonObject>,
}

/// What a session notification says.
pub struct NoticeView {
    pub session_id: Seq<char>,
    pub update: agent_client_protocol::SessionUpdate,
    pub meta: Option<Map<Seq<char>, Tree>>,
}

impl View for SessionNotice {
    type V = NoticeView;

    open spec fn view(&self) -> NoticeView {
        NoticeView {
            session_id: self.session_id@,
            update: self.update,
            meta: meta_view(self.meta),
        }
    }
}

/// What a replay sends to the client.
#[derive(Debug)]
pub enum Notification {
    /// A notification outside the protocol: a method, and its parameters as JSON
    /// text.
    Ext { method: String, params: String },
    /// An update within the protocol.
    Session(SessionNotice),
}

/// What a notification says.
pub enum NotificationView {
    Ext { method: Seq<char>, params: Seq<char> },
    Session(NoticeView),
}

impl View for Notification {
    type V = NotificationView;

    open spec fn view(&self) -> NotificationView {
        match self {
            Notification::Ext { method, params } => NotificationView::Ext {
                method: method@,
                params: params@,
            },
            Notification::Session(notice) => NotificationView::Session(notice@),
        }
    }
}

/// The marks that a replay leaves on what it forwards.
pub struct Stamps {
    /// Whether it is marked as historical.
    pub mark_replay: bool,
    /// What is to be known about where the session is kept.
    pub persist_data: Option<Tree>,
    /// The one client that it is meant for.
    pub target_client_id: Option<Tree>,
}

/// What an optional object says.
pub open spec fn meta_view(meta: Option<JsonObject>) -> Option<Map<Seq<char>, Tree>> {
    match meta {
        Some(object) => Some(object@),
        None => None,
    }
}

/// What an optional value says.
pub open spec fn value_view(value: Option<&Json>) -> Option<Tree> {
    match value {
        Some(json) => Some(json@),
        None => None,
    }
}

/// The marks that these arguments ask for.
pub open spec fn stamps(
    persist_data: Option<&Json>,
    target_client_id: Option<&Json>,
    mark_replay: bool,
) -> Stamps {
    Stamps {
        mark_replay,
        persist_data: value_view(persist_data),
        target_client_id: value_view(target_client_id),
    }
}

/// `fields`, with `value` under `key` if there is a value.
pub open spec fn with_optional(
    fields: Map<Seq<char>, Tree>,
    key: Seq<char>,
    value: Option<Tree>,
) -> Map<Seq<char>, Tree> {
    match value {
        Some(tree) => fields.insert(key, tree),
        None => fields,
    }
}

/// `fields`, marked as historical if they are.
pub open spec fn with_replay_mark(
    fields: Map<Seq<char>, Tree>,
    mark_replay: bool,
) -> Map<Seq<char>, Tree> {
    if mark_replay {
        fields.insert("isReplay"@, Tree::Bool(true))
    } else {
        fields
    }
}

/// The metadata of an extension notification with all marks on it.
pub open spec fn stamped_meta(
    meta: Map<Seq<char>, Tree>,
    marks: Stamps,
) -> Map<Seq<char>, Tree> {
    with_optional(
        with_optional(
            with_replay_mark(meta, marks.mark_replay),
            "x.ai/persist"@,
            marks.persist_data,
        ),
        "x.ai/leaderClientId"@,
        marks.target_client_id,
    )
}

/// The parameters of an extension notification with all marks on their metadata.
/// A null in its place counts as no metadata. Parameters that are no object, or
/// whose metadata is neither an object nor null, stay as they are.
pub open spec fn stamped_params(params: Tree, marks: Stamps) -> Tree {
    match params {
        Tree::Object(fields) => if !fields.contains_key("_meta"@) {
            Tree::Object(
                fields.insert("_meta"@, Tree::Object(stamped_meta(Map::empty(), marks))),
            )
        } else {
            match fields["_meta"@] {
                Tree::Object(meta) => Tree::Object(
                    fields.insert("_meta"@, Tree::Object(stamped_meta(meta, marks))),
                ),
                Tree::Null => Tree::Object(
                    fields.insert("_meta"@, Tree::Object(stamped_meta(Map::empty(), marks))),
                ),
                _ => params,
            }
        },
        _ => params,
    }
}

/// The fields of optional metadata: none where there is none.
pub open spec fn meta_fields(meta: Option<Map<Seq<char>, Tree>>) -> Map<Seq<char>, Tree> {
    match meta {
        Some(fields) => fields,
        None => Map::empty(),
    }
}

/// The metadata of a session notification with its marks on it. Where the
/// session is kept is noted on historical ones only.
pub open spec fn stamped_session_meta(
    meta: Option<Map<Seq<char>, Tree>>,
    marks: Stamps,
) -> Option<Map<Seq<char>, Tree>> {
    let marked = if marks.mark_replay {
        Some(
            with_optional(
                with_replay_mark(meta_fields(meta), true),
                "x.ai/persist"@,
                marks.persist_data,
            ),
        )
    } else {
        meta
    };
    match marks.target_client_id {
        Some(target) => Some(meta_fields(marked).insert("x.ai/leaderClientId"@, target)),
        None => marked,
    }
}

/// Puts a copy of `value` under `key`, if there is a value.
fn set_optional(object: &mut JsonObject, key: &str, value: Option<&Json>)
    ensures
        final(object)@ == with_optional(old(object)@, key@, value_view(value)),
{
    if let Some(json) = value {
        object.set(key, json.copy());
    }
}

/// Puts all marks on the metadata of an extension notification.
pub fn stamp_meta(
    meta: &mut JsonObject,
    persist_data: Option<&Json>,
    target_client_id: Option<&Json>,
    mark_replay: bool,
)
    ensures
        final(meta)@ == stamped_meta(
            old(meta)@,
            stamps(persist_data, target_client_id, mark_replay),
        ),
{
    if mark_replay {
        meta.set("isReplay", Json::Bool(true));
    }
    set_optional(meta, "x.ai/persist", persist_data);
    set_optional(meta, "x.ai/leaderClientId", target_client_id);
}

/// Puts all marks on the parameters of an extension notification.
pub fn stamp_params(
    params: Json,
    persist_data: Option<&Json>,
    target_client_id: Option<&Json>,
    mark_replay: bool,
) -> (stamped: Json)
    ensures
        stamped@ == stamped_params(
            params@,
            stamps(persist_data, target_client_id, mark_replay),
        ),
{
    match params {
        Json::Object(object) => {
            let mut object: JsonObject = object;
            let meta: Option<JsonObject> = match object.get("_meta") {
                None => Some(JsonObject::new()),
                Some(Json::Null) => Some(JsonObject::new()),
                Some(Json::Object(meta)) => Some(meta.copy()),
                Some(_) => None,
            };
            if let Some(meta) = meta {
                let mut meta: JsonObject = meta;
                stamp_meta(&mut meta, persist_data, target_client_id, mark_replay);
                object.set("_meta", Json::Object(meta));
            }
            Json::Object(object)
        },
        other => other,
    }
}

/// Puts `value` under `key` in the metadata of a session notification, which it
/// is given if it has none.
pub fn stamp_meta_value(meta: &mut Option<JsonObject>, key: &str, value: &Json)
    ensures
        meta_view(*final(meta)) == Some(
            meta_fields(meta_view(*old(meta))).insert(key@, value@),
        ),
{
    let mut object: JsonObject = match meta.take() {
        Some(object) => object,
        None => JsonObject::new(),
    };
    object.set(key, value.copy());
    *meta = Some(object);
}

/// Marks the metadata of a session notification as historical, and notes where
/// the session is kept.
pub fn mark_as_replay(meta: &mut Option<JsonObject>, persist_data: Option<&Json>)
    ensures
        meta_view(*final(meta)) == Some(
            with_optional(
                with_replay_mark(meta_fields(meta_view(*old(meta))), true),
                "x.ai/persist"@,
                value_view(persist_data),
            ),
        ),
{
    stamp_meta_value(meta, "isReplay", &Json::Bool(true));
    if let Some(json) = persist_data {
        stamp_meta_value(meta, "x.ai/persist", json);
    }
}

/// What `serde_json` reads as a `SessionNotification` of `agent_client_protocol`
/// in a text: the session, the update and the metadata.
pub uninterp spec fn session_parts(text: Seq<char>) -> Option<
    (Seq<char>, agent_client_protocol::SessionUpdate, Option<Map<Seq<char>, Tree>>),
>;

/// The fields that an optional `serde_json::Value` holds as an object.
pub open spec fn object_fields(value: Option<serde_json::Value>) -> Option<Map<Seq<char>, Tree>> {
    match value {
        Some(v) => Some(json::value_tree(v)->Object_0),
        None => None,
    }
}

/// `serde_json::from_str` into an `agent_client_protocol::SessionNotification`,
/// taken apart into its session, its update and its metadata, which is an object
/// where there is any. What it reads is named, not spelled out.
#[verifier::external_body]
fn parse_session_notification(text: &str) -> (parts: Option<
    (String, agent_client_protocol::SessionUpdate, Option<serde_json::Value>),
>)
    ensures
        parts is None ==> session_parts(text@) is None,
        parts matches Some((id, update, meta)) ==> session_parts(text@) == Some(
            (id@, update, object_fields(meta)),
        ),
        parts matches Some((id, update, Some(meta))) ==> json::value_tree(meta) is Object,
{
    serde_json::from_str::<agent_client_protocol::SessionNotification>(text).ok().map(
        |n| (n.session_id.0.to_string(), n.update, n.meta.map(serde_json::Value::Object)),
    )
}

/// The session notification in a text, if there is one.
pub fn read_session_notice(text: &str) -> (notice: Option<SessionNotice>)
    ensures
        notice is None ==> session_parts(text@) is None,
        notice matches Some(n) ==> session_parts(text@) == Some(
            (n@.session_id, n@.update, n@.meta),
        ),
{
    match parse_session_notification(text) {
        Some((session_id, update, found)) => {
            let meta: Option<JsonObject> = match found {
                Some(value) => match Json::from_value(value) {
                    Json::Object(object) => Some(object),
                    _ => None,
                },
                None => None,
            };
            Some(SessionNotice { session_id, update, meta })
        },
        None => None,
    }
}

/// Where a recorded line goes, before it is fitted or collapsed.
#[derive(Debug)]
pub enum LineRoute {
    /// It is not forwarded.
    Skip,
    /// It goes out as an extension notification with these parameters, once they
    /// are fitted.
    Ext(String),
    /// It goes out as this session notification with its marks on it, unless its
    /// update is collapsed into another.
    Session(SessionNotice),
}

/// What a route says.
pub enum RouteView {
    Skip,
    Ext(Seq<char>),
    Session(NoticeView),
}

impl View for LineRoute {
    type V = RouteView;

    open spec fn view(&self) -> RouteView {
        match self {
            LineRoute::Skip => RouteView::Skip,
            LineRoute::Ext(params) => RouteView::Ext(params@),
            LineRoute::Session(notice) => RouteView::Session(notice@),
        }
    }
}

/// Whether a line was recorded as an extension notification.
pub open spec fn is_extension(peek: RawLinePeek) -> bool {
    peek.method matches Some(method) && method@ == "_x.ai/session/update"@
}

/// Where the parameters of an extension notification go. Without a mark to
/// leave, their text goes out as it was recorded.
pub open spec fn extension_route(params: Seq<char>, marks: Stamps) -> RouteView {
    if marks.target_client_id is None && !marks.mark_replay {
        if json::well_formed_json(params) {
            RouteView::Ext(json::json_core(params))
        } else {
            RouteView::Skip
        }
    } else {
        match json::parsed_tree(params) {
            Some(tree) => RouteView::Ext(json::json_text(stamped_params(tree, marks))),
            None => RouteView::Skip,
        }
    }
}

/// Where the parameters of a session notification go.
pub open spec fn session_route(params: Seq<char>) -> RouteView {
    match session_parts(params) {
        Some((session_id, update, meta)) => RouteView::Session(
            NoticeView { session_id, update, meta },
        ),
        None => RouteView::Skip,
    }
}

/// Where a recorded line goes of which this is the surface. One that cannot be
/// read, or has no parameters, is not forwarded; one with another method than
/// that of extension notifications, or with none, counts as a session
/// notification.
pub open spec fn route(peek: Option<RawLinePeek>, marks: Stamps) -> RouteView {
    match peek {
        Some(line) => match line.params {
            Some(params) => if is_extension(line) {
                extension_route(params@, marks)
            } else {
                session_route(params@)
            },
            None => RouteView::Skip,
        },
        None => RouteView::Skip,
    }
}

/// Where a recorded line goes of which `peek` is the surface.
pub fn route_line(
    peek: Option<RawLinePeek>,
    persist_data: Option<&Json>,
    target_client_id: Option<&Json>,
    mark_replay: bool,
) -> (routed: LineRoute)
    ensures
        routed@ == route(peek, stamps(persist_data, target_client_id, mark_replay)),
{
    let line: RawLinePeek = match peek {
        Some(line) => line,
        None => {
            return LineRoute::Skip;
        },
    };
    let is_xai: bool = match line.method {
        Some(method) => method == "_x.ai/session/update".to_owned(),
        None => false,
    };
    let params: String = match line.params {
        Some(params) => params,
        None => {
            return LineRoute::Skip;
        },
    };
    if is_xai {
        // The text can go out as it stands only where nothing is to be put on
        // it: with a target on it lost, every subscriber would be sent it.
        if target_client_id.is_none() && !mark_replay {
            return match json::raw_json(params) {
                Some(raw) => LineRoute::Ext(raw),
                None => LineRoute::Skip,
            };
        }
        return match Json::parse(params.as_str()) {
            Some(tree) => match stamp_params(
                tree,
                persist_data,
                target_client_id,
                mark_replay,
            ).render() {
                Some(text) => LineRoute::Ext(text),
                None => LineRoute::Skip,
            },
            None => LineRoute::Skip,
        };
    }
    match read_session_notice(params.as_str()) {
        Some(notice) => LineRoute::Session(notice),
        None => LineRoute::Skip,
    }
}

/// What parameters are sent as once they are fitted, if they can be.
pub open spec fn fitted(params: Seq<char>, refit: Refit) -> Option<Seq<char>> {
    match refit {
        Refit::Unchanged => Some(params),
        Refit::Fitted(shorter) => Some(shorter@),
        Refit::Unfittable => None,
    }
}

/// What `params` are sent as, given what became of them when they were fitted.
/// Completions recorded before they were bounded can be too long for a client
/// to read. One that cannot be shortened enough is dropped, which costs an event
/// and keeps the connection.
pub fn fitted_replay_params(params: String, refit: Refit) -> (sent: Option<String>)
    ensures
        sent is Some <==> fitted(params@, refit) is Some,
        sent matches Some(text) ==> fitted(params@, refit) == Some(text@),
{
    match refit {
        Refit::Unchanged => Some(params),
        Refit::Fitted(shorter) => Some(shorter),
        Refit::Unfittable => None,
    }
}

/// An extension notification with these parameters.
pub open spec fn extension(params: Seq<char>) -> NotificationView {
    NotificationView::Ext { method: "x.ai/session/update"@, params }
}

/// An extension notification with these parameters.
pub fn ext_notification(params: String) -> (notification: Notification)
    ensures
        notification@ == extension(params@),
{
    Notification::Ext { method: "x.ai/session/update".to_owned(), params }
}

/// A session notification with its marks on it, of which `update` is what is
/// left of the update.
pub open spec fn sealed(
    notice: NoticeView,
    update: agent_client_protocol::SessionUpdate,
    marks: Stamps,
) -> NotificationView {
    NotificationView::Session(
        NoticeView {
            session_id: notice.session_id,
            update,
            meta: stamped_session_meta(notice.meta, marks),
        },
    )
}

/// Puts the marks on a session notification.
pub fn seal_session_notice(
    notice: SessionNotice,
    persist_data: Option<&Json>,
    target_client_id: Option<&Json>,
    mark_replay: bool,
) -> (notification: Notification)
    ensures
        notification@ == sealed(
            notice@,
            notice.update,
            stamps(persist_data, target_client_id, mark_replay),
        ),
{
    let mut meta: Option<JsonObject> = notice.meta;
    if mark_replay {
        mark_as_replay(&mut meta, persist_data);
    }
    // The target goes on live updates too: they are meant for the loading client
    // alone as well.
    if let Some(target) = target_client_id {
        stamp_meta_value(&mut meta, "x.ai/leaderClientId", target);
    }
    Notification::Session(
        SessionNotice { session_id: notice.session_id, update: notice.update, meta },
    )
}

/// What an optional notification says.
pub open spec fn sent_view(sent: Option<Notification>) -> Option<NotificationView> {
    match sent {
        Some(notification) => Some(notification@),
        None => None,
    }
}

/// Whether `surface` is what `peek` may find in the text `line`.
pub open spec fn peeked_as<P: Fn(&str) -> Option<RawLinePeek>>(
    peek: P,
    line: Seq<char>,
    surface: Option<RawLinePeek>,
) -> bool {
    exists|slice: &str| slice@ == line && #[trigger] call_ensures(peek, (slice,), surface)
}

/// Whether `outcome` is what `refit` may make of the text `params`.
pub open spec fn refitted_as<F: Fn(&str) -> Refit>(
    refit: F,
    params: Seq<char>,
    outcome: Refit,
) -> bool {
    exists|slice: &str| slice@ == params && #[trigger] call_ensures(refit, (slice,), outcome)
}

/// Whether parameters go out as `sent`, once `refit` has fitted them.
pub open spec fn extension_sent<F: Fn(&str) -> Refit>(
    refit: F,
    params: Seq<char>,
    sent: Option<NotificationView>,
) -> bool {
    exists|outcome: Refit| #[trigger]
        refitted_as(refit, params, outcome) && sent == match fitted(params, outcome) {
            Some(text) => Some(extension(text)),
            None => None,
        }
}

/// Whether a session notification goes out as `sent`, once `collapse` has taken
/// its update in and `collapser` has become `collapser_after`.
pub open spec fn session_sent<
    S,
    C: Fn(S, agent_client_protocol::SessionUpdate) -> (
        S,
        Option<agent_client_protocol::SessionUpdate>,
    ),
>(
    collapse: C,
    collapser: S,
    collapser_after: S,
    notice: NoticeView,
    marks: Stamps,
    sent: Option<NotificationView>,
) -> bool {
    exists|left: Option<agent_client_protocol::SessionUpdate>| #[trigger]
        call_ensures(collapse, (collapser, notice.update), (collapser_after, left)) && sent
            == match left {
            Some(update) => Some(sealed(notice, update, marks)),
            None => None,
        }
}

/// Whether a recorded line of which `surface` is the surface goes out as `sent`,
/// with `collapser` become `collapser_after`.
pub open spec fn surface_sent<
    S,
    F: Fn(&str) -> Refit,
    C: Fn(S, agent_client_protocol::SessionUpdate) -> (
        S,
        Option<agent_client_protocol::SessionUpdate>,
    ),
>(
    refit: F,
    collapse: C,
    surface: Option<RawLinePeek>,
    marks: Stamps,
    collapser: S,
    collapser_after: S,
    sent: Option<NotificationView>,
) -> bool {
    match route(surface, marks) {
        RouteView::Skip => collapser_after == collapser && sent is None,
        RouteView::Ext(params) => collapser_after == collapser && extension_sent(
            refit,
            params,
            sent,
        ),
        RouteView::Session(notice) => session_sent(
            collapse,
            collapser,
            collapser_after,
            notice,
            marks,
            sent,
        ),
    }
}

/// Whether the recorded line `line` goes out as `sent`, with `collapser` become
/// `collapser_after`.
pub open spec fn line_sent<
    S,
    P: Fn(&str) -> Option<RawLinePeek>,
    F: Fn(&str) -> Refit,
    C: Fn(S, agent_client_protocol::SessionUpdate) -> (
        S,
        Option<agent_client_protocol::SessionUpdate>,
    ),
>(
    peek: P,
    refit: F,
    collapse: C,
    line: Seq<char>,
    marks: Stamps,
    collapser: S,
    collapser_after: S,
    sent: Option<NotificationView>,
) -> bool {
    exists|surface: Option<RawLinePeek>| #[trigger]
        peeked_as(peek, line, surface) && surface_sent(
            refit,
            collapse,
            surface,
            marks,
            collapser,
            collapser_after,
            sent,
        )
}

/// What one recorded line is forwarded as, if it is, and the state of the
/// collapser after it.
///
/// A line recorded under the method of the protocol goes out as a session
/// notification, one under that of the extension as an extension notification.
/// With `mark_replay` it is marked as historical; a reconnecting client is sent
/// what came after its cursor without that mark, as live.
///
/// `peek` reads the surface of a line, `refit` fits parameters to the longest
/// line that a client reads, and `collapse` takes an update into the collapser
/// and hands back what is left to be sent of it.
pub fn forward_raw_replay_line<
    S,
    P: Fn(&str) -> Option<RawLinePeek>,
    F: Fn(&str) -> Refit,
    C: Fn(S, agent_client_protocol::SessionUpdate) -> (
        S,
        Option<agent_client_protocol::SessionUpdate>,
    ),
>(
    line: &str,
    persist_data: Option<&Json>,
    target_client_id: Option<&Json>,
    mark_replay: bool,
    collapser: S,
    peek: &P,
    refit: &F,
    collapse: &C,
) -> (forwarded: (S, Option<Notification>))
    requires
        forall|text: &str| call_requires(*peek, (text,)),
        forall|text: &str| call_requires(*refit, (text,)),
        forall|state: S, update: agent_client_protocol::SessionUpdate|
            call_requires(*collapse, (state, update)),
    ensures
        line_sent(
            *peek,
            *refit,
            *collapse,
            line@,
            stamps(persist_data, target_client_id, mark_replay),
            collapser,
            forwarded.0,
            sent_view(forwarded.1),
        ),
{
    let surface = peek(line);
    assert(peeked_as(*peek, line@, surface));
    match route_line(surface, persist_data, target_client_id, mark_replay) {
        LineRoute::Skip => (collapser, None),
        LineRoute::Ext(params) => {
            let outcome = refit(params.as_str());
            assert(refitted_as(*refit, params@, outcome));
            match fitted_replay_params(params, outcome) {
                Some(text) => (collapser, Some(ext_notification(text))),
                None => (collapser, None),
            }
        },
        LineRoute::Session(notice) => {
            let (collapser_after, left) = collapse(collapser, notice.update);
            match left {
                Some(update) => {
                    let kept = SessionNotice {
                        session_id: notice.session_id,
                        update,
                        meta: notice.meta,
                    };
                    (
                        collapser_after,
                        Some(
                            seal_session_notice(
                                kept,
                                persist_data,
                                target_client_id,
                                mark_replay,
                            ),
                        ),
                    )
                },
                None => (collapser_after, None),
            }
        },
    }
}

/// What an aside is replayed as: an update of its session, always marked as
/// historical.
pub open spec fn btw_params(
    session_id: Seq<char>,
    entry: BtwEntry,
    persist_data: Option<Tree>,
    target_client_id: Option<Tree>,
) -> Tree {
    Tree::Object(
        map![
            "sessionId"@ => Tree::Text(session_id),
            "update"@ => Tree::Object(map![
                "sessionUpdate"@ => Tree::Text("btw"@),
                "question"@ => Tree::Text(entry.question@),
                "answer"@ => Tree::Text(entry.answer@),
                "asked_at"@ => Tree::Text(
                    time::rfc3339_text(entry.asked_at.second(), entry.asked_at.subsec()),
                ),
            ]),
            "_meta"@ => Tree::Object(
                stamped_meta(
                    Map::empty(),
                    Stamps { mark_replay: true, persist_data, target_client_id },
                ),
            ),
        ],
    )
}

/// What an aside is forwarded as.
pub fn forward_replay_btw(
    session_id: &str,
    entry: &BtwEntry,
    persist_data: Option<&Json>,
    target_client_id: Option<&Json>,
) -> (notification: Option<Notification>)
    ensures
        notification is Some,
        notification->0@ == extension(
            json::json_text(
                btw_params(
                    session_id@,
                    *entry,
                    value_view(persist_data),
                    value_view(target_client_id),
                ),
            ),
        ),
{
    let mut meta = JsonObject::new();
    stamp_meta(&mut meta, persist_data, target_client_id, true);
    let mut update = JsonObject::new();
    update.set("sessionUpdate", Json::Text("btw".to_owned()));
    update.set("question", Json::Text(entry.question.clone()));
    update.set("answer", Json::Text(entry.answer.clone()));
    update.set("asked_at", Json::Text(entry.asked_at.to_rfc3339()));
    let mut params = JsonObject::new();
    params.set("sessionId", Json::Text(session_id.to_owned()));
    params.set("update", Json::Object(update));
    params.set("_meta", Json::Object(meta));
    match Json::Object(params).render() {
        Some(text) => Some(ext_notification(text)),
        None => None,
    }
}

/// Whether `value` stands under `key` in `fields`.
pub open spec fn holds(fields: Map<Seq<char>, Tree>, key: Seq<char>, value: Tree) -> bool {
    fields.contains_key(key) && fields[key] == value
}

/// Whether two sets of fields agree on `key`: both have the same value under it,
/// or neither has one.
pub open spec fn agree_on(
    a: Map<Seq<char>, Tree>,
    b: Map<Seq<char>, Tree>,
    key: Seq<char>,
) -> bool {
    &&& a.contains_key(key) <==> b.contains_key(key)
    &&& a.contains_key(key) ==> a[key] == b[key]
}

/// Whether `after` is `before` with these marks on it and nothing else changed.
pub open spec fn marked(
    before: Map<Seq<char>, Tree>,
    after: Map<Seq<char>, Tree>,
    mark_replay: bool,
    persist_data: Option<Tree>,
    target_client_id: Option<Tree>,
) -> bool {
    &&& if mark_replay {
        holds(after, "isReplay"@, Tree::Bool(true))
    } else {
        agree_on(before, after, "isReplay"@)
    }
    &&& match persist_data {
        Some(tree) => holds(after, "x.ai/persist"@, tree),
        None => agree_on(before, after, "x.ai/persist"@),
    }
    &&& match target_client_id {
        Some(tree) => holds(after, "x.ai/leaderClientId"@, tree),
        None => agree_on(before, after, "x.ai/leaderClientId"@),
    }
    &&& forall|key: Seq<char>|
        key != "isReplay"@ && key != "x.ai/persist"@ && key != "x.ai/leaderClientId"@
            ==> #[trigger] agree_on(before, after, key)
}

proof fn lemma_mark_keys_differ()
    ensures
        "isReplay"@ != "x.ai/persist"@,
        "isReplay"@ != "x.ai/leaderClientId"@,
        "x.ai/persist"@ != "x.ai/leaderClientId"@,
{
    reveal_strlit("isReplay");
    reveal_strlit("x.ai/persist");
    reveal_strlit("x.ai/leaderClientId");
    assert("isReplay"@.len() == 8);
    assert("x.ai/persist"@.len() == 12);
    assert("x.ai/leaderClientId"@.len() == 19);
}

/// The metadata of an extension notification gets the marks that are asked for
/// and loses nothing else. Without `mark_replay` it says of being historical what
/// it said before.
pub proof fn extension_metadata_is_marked(meta: Map<Seq<char>, Tree>, marks: Stamps)
    ensures
        marked(
            meta,
            stamped_meta(meta, marks),
            marks.mark_replay,
            marks.persist_data,
            marks.target_client_id,
        ),
{
    lemma_mark_keys_differ();
}

/// The metadata of a session notification gets the marks that are asked for and
/// loses nothing else; where the session is kept is noted on historical ones
/// only. With no mark to leave it stays as it was, missing or not.
pub proof fn session_metadata_is_marked(meta: Option<Map<Seq<char>, Tree>>, marks: Stamps)
    ensures
        marked(
            meta_fields(meta),
            meta_fields(stamped_session_meta(meta, marks)),
            marks.mark_replay,
            if marks.mark_replay {
                marks.persist_data
            } else {
                None
            },
            marks.target_client_id,
        ),
        !marks.mark_replay && marks.target_client_id is None ==> stamped_session_meta(meta, marks)
            == meta,
{
    lemma_mark_keys_differ();
}

/// The fields of the metadata of an extension notification's parameters, if
/// marks can be left there: the parameters are an object, and have an object as
/// metadata or none. A null in its place counts as none.
pub open spec fn markable_meta(params: Tree) -> Option<Map<Seq<char>, Tree>> {
    match params {
        Tree::Object(fields) => if fields.contains_key("_meta"@) {
            match fields["_meta"@] {
                Tree::Object(meta) => Some(meta),
                Tree::Null => Some(Map::empty()),
                _ => None,
            }
        } else {
            Some(Map::empty())
        },
        _ => None,
    }
}

/// Parameters of an extension notification keep every field but their metadata,
/// which gets the marks, and is made where it is missing or null; and parameters
/// that can take no marks stay as they are.
pub proof fn extension_parameters_are_marked(params: Tree, marks: Stamps)
    ensures
        match markable_meta(params) {
            Some(meta) => {
                &&& markable_meta(stamped_params(params, marks)) == Some(stamped_meta(meta, marks))
                &&& stamped_params(params, marks) is Object
                &&& forall|key: Seq<char>|
                    key != "_meta"@ ==> #[trigger] agree_on(
                        params->Object_0,
                        stamped_params(params, marks)->Object_0,
                        key,
                    )
            },
            None => stamped_params(params, marks) == params,
        },
{
}

/// Marks are left once: leaving them again changes nothing.
pub proof fn marking_again_changes_nothing(params: Tree, marks: Stamps)
    ensures
        stamped_params(stamped_params(params, marks), marks) == stamped_params(params, marks),
{
    lemma_mark_keys_differ();
    if let Some(meta) = markable_meta(params) {
        let once = stamped_meta(meta, marks);
        assert(stamped_meta(once, marks) =~= once);
        let fields = stamped_params(params, marks)->Object_0;
        assert(fields.insert("_meta"@, Tree::Object(once)) =~= fields);
    }
}

/// A notification that is meant for one client is never forwarded as it was
/// recorded: an extension notification goes out with its parameters read,
/// marked and written anew, so that the mark of the client is on them wherever
/// they can take one.
pub proof fn target_is_left_on_extensions(surface: RawLinePeek, marks: Stamps, target: Tree)
    requires
        is_extension(surface),
        surface.params is Some,
        marks.target_client_id == Some(target),
    ensures
        match json::parsed_tree(surface.params->0@) {
            Some(params) => {
                &&& route(Some(surface), marks) == RouteView::Ext(
                    json::json_text(stamped_params(params, marks)),
                )
                &&& markable_meta(params) is Some ==> holds(
                    markable_meta(stamped_params(params, marks))->0,
                    "x.ai/leaderClientId"@,
                    target,
                )
            },
            None => route(Some(surface), marks) is Skip,
        },
{
    lemma_mark_keys_differ();
}

/// A session notification that is meant for one client has the mark of that
/// client on it, historical or live.
pub proof fn target_is_left_on_session_notices(
    notice: NoticeView,
    update: agent_client_protocol::SessionUpdate,
    marks: Stamps,
    target: Tree,
)
    requires
        marks.target_client_id == Some(target),
    ensures
        sealed(notice, update, marks)->Session_0.meta is Some,
        holds(
            sealed(notice, update, marks)->Session_0.meta->0,
            "x.ai/leaderClientId"@,
            target,
        ),
{
}

/// An aside is always replayed as historical, with its marks on it.
pub proof fn asides_are_marked(
    session_id: Seq<char>,
    entry: BtwEntry,
    persist_data: Option<Tree>,
    target_client_id: Option<Tree>,
)
    ensures
        markable_meta(btw_params(session_id, entry, persist_data, target_client_id)) is Some,
        marked(
            Map::empty(),
            markable_meta(btw_params(session_id, entry, persist_data, target_client_id))->0,
            true,
            persist_data,
            target_client_id,
        ),
{
    lemma_mark_keys_differ();
    let marks = Stamps { mark_replay: true, persist_data, target_client_id };
    extension_metadata_is_marked(Map::empty(), marks);
}

/// Without a mark to leave, an extension notification goes out with the text of
/// its parameters as recorded, but for the white space around it, as long as
/// that text is not too long; and a session notification with the metadata as
/// recorded.
pub proof fn unmarked_lines_go_out_as_recorded(
    surface: RawLinePeek,
    notice: NoticeView,
    update: agent_client_protocol::SessionUpdate,
    marks: Stamps,
)
    requires
        surface.params is Some,
        !marks.mark_replay,
        marks.target_client_id is None,
    ensures
        is_extension(surface) && json::well_formed_json(surface.params->0@) ==> route(
            Some(surface),
            marks,
        ) == RouteView::Ext(json::json_core(surface.params->0@)),
        sealed(notice, update, marks) == NotificationView::Session(
            NoticeView { session_id: notice.session_id, update, meta: notice.meta },
        ),
{
}

/// What a notification says leaves nothing out of it.
pub proof fn a_notification_says_all_that_it_holds(notification: Notification)
    ensures
        match notification {
            Notification::Ext { method, params } => notification@ == (NotificationView::Ext {
                method: method@,
                params: params@,
            }),
            Notification::Session(notice) => {
                &&& notification@ is Session
                &&& notification@->Session_0 == notice@
                &&& notice@.session_id == notice.session_id@
                &&& notice@.update == notice.update
                &&& notice.meta is None <==> notice@.meta is None
                &&& notice.meta matches Some(object) ==> notice@.meta == Some(object@)
            },
        },
        sent_view(Some(notification)) == Some(notification@),
        sent_view(None) is None,
{
}

/// Whether parameters whose text is `text` go out as `sent`: under the method of
/// the extension, as `refit` may fit them, or not at all where it cannot.
pub open spec fn goes_out_fitted<F: Fn(&str) -> Refit>(
    refit: F,
    text: Seq<char>,
    sent: Option<NotificationView>,
) -> bool {
    exists|slice: &str, outcome: Refit|
        {
            &&& slice@ == text
            &&& #[trigger] call_ensures(refit, (slice,), outcome)
            &&& match outcome {
                Refit::Unchanged => sent == Some(
                    (NotificationView::Ext { method: "x.ai/session/update"@, params: text }),
                ),
                Refit::Fitted(shorter) => sent == Some(
                    (NotificationView::Ext { method: "x.ai/session/update"@, params: shorter@ }),
                ),
                Refit::Unfittable => sent is None,
            }
        }
}

/// Whether `after` are the parameters `before` with these marks in their
/// metadata, which is made where it is missing or null, and with nothing else
/// changed; or `before` as they are, where they are no object, or have something
/// else as metadata.
pub open spec fn parameters_marked(
    before: Tree,
    after: Tree,
    mark_replay: bool,
    persist_data: Option<&Json>,
    target_client_id: Option<&Json>,
) -> bool {
    match before {
        Tree::Object(fields) => {
            let meta: Option<Map<Seq<char>, Tree>> = if !fields.contains_key("_meta"@) {
                Some(Map::empty())
            } else {
                match fields["_meta"@] {
                    Tree::Object(found) => Some(found),
                    Tree::Null => Some(Map::empty()),
                    _ => None,
                }
            };
            match meta {
                Some(was) => {
                    &&& after is Object
                    &&& after->Object_0.contains_key("_meta"@)
                    &&& after->Object_0["_meta"@] is Object
                    &&& marked(
                        was,
                        after->Object_0["_meta"@]->Object_0,
                        mark_replay,
                        match persist_data {
                            Some(value) => Some(value@),
                            None => None,
                        },
                        match target_client_id {
                            Some(value) => Some(value@),
                            None => None,
                        },
                    )
                    &&& forall|key: Seq<char>|
                        key != "_meta"@ ==> #[trigger] agree_on(fields, after->Object_0, key)
                },
                None => after == before,
            }
        },
        _ => after == before,
    }
}

/// A line goes by its surface, which `peek` reads in the line as it stands.
pub proof fn a_line_goes_by_its_surface<
    S,
    P: Fn(&str) -> Option<RawLinePeek>,
    F: Fn(&str) -> Refit,
    C: Fn(S, agent_client_protocol::SessionUpdate) -> (
        S,
        Option<agent_client_protocol::SessionUpdate>,
    ),
>(
    peek: P,
    refit: F,
    collapse: C,
    line: Seq<char>,
    marks: Stamps,
    collapser: S,
    collapser_after: S,
    sent: Option<NotificationView>,
)
    requires
        line_sent(peek, refit, collapse, line, marks, collapser, collapser_after, sent),
    ensures
        exists|slice: &str, surface: Option<RawLinePeek>|
            {
                &&& slice@ == line
                &&& #[trigger] call_ensures(peek, (slice,), surface)
                &&& surface_sent(
                    refit,
                    collapse,
                    surface,
                    marks,
                    collapser,
                    collapser_after,
                    sent,
                )
            },
{
    let surface = choose|surface: Option<RawLinePeek>| #[trigger]
        peeked_as(peek, line, surface) && surface_sent(
            refit,
            collapse,
            surface,
            marks,
            collapser,
            collapser_after,
            sent,
        );
    let slice = choose|slice: &str|
        slice@ == line && #[trigger] call_ensures(peek, (slice,), surface);
    assert(call_ensures(peek, (slice,), surface));
}

/// A line that cannot be read, or has no parameters, is not sent, and the
/// collapser does not see it.
pub proof fn a_line_without_parameters_is_not_sent<
    S,
    F: Fn(&str) -> Refit,
    C: Fn(S, agent_client_protocol::SessionUpdate) -> (
        S,
        Option<agent_client_protocol::SessionUpdate>,
    ),
>(
    refit: F,
    collapse: C,
    surface: Option<RawLinePeek>,
    marks: Stamps,
    collapser: S,
    collapser_after: S,
    sent: Option<NotificationView>,
)
    requires
        surface_sent(refit, collapse, surface, marks, collapser, collapser_after, sent),
        surface is None || surface->0.params is None,
    ensures
        sent is None,
        collapser_after == collapser,
{
}

/// A line recorded as an extension notification goes out as one. Where it is to
/// be marked as historical, or is meant for one client, its parameters are read,
/// marked and written anew; else their text goes out without the white space
/// around it. Parameters that are not JSON are not sent, and the collapser does
/// not see the line.
pub proof fn an_extension_line_goes_out_marked_and_fitted<
    S,
    F: Fn(&str) -> Refit,
    C: Fn(S, agent_client_protocol::SessionUpdate) -> (
        S,
        Option<agent_client_protocol::SessionUpdate>,
    ),
>(
    refit: F,
    collapse: C,
    method: String,
    params: String,
    persist_data: Option<&Json>,
    target_client_id: Option<&Json>,
    mark_replay: bool,
    collapser: S,
    collapser_after: S,
    sent: Option<NotificationView>,
)
    requires
        method@ == "_x.ai/session/update"@,
        surface_sent(
            refit,
            collapse,
            Some(RawLinePeek { method: Some(method), params: Some(params) }),
            stamps(persist_data, target_client_id, mark_replay),
            collapser,
            collapser_after,
            sent,
        ),
    ensures
        collapser_after == collapser,
        target_client_id is None && !mark_replay ==> if json::well_formed_json(params@) {
            goes_out_fitted(refit, json::json_core(params@), sent)
        } else {
            sent is None
        },
        target_client_id is Some || mark_replay ==> match json::parsed_tree(params@) {
            Some(read) => exists|written: Tree|
                {
                    &&& #[trigger] parameters_marked(
                        read,
                        written,
                        mark_replay,
                        persist_data,
                        target_client_id,
                    )
                    &&& goes_out_fitted(refit, json::json_text(written), sent)
                },
            None => sent is None,
        },
{
    let marks = stamps(persist_data, target_client_id, mark_replay);
    let surface = RawLinePeek { method: Some(method), params: Some(params) };
    lemma_mark_keys_differ();
    if let RouteView::Ext(text) = route(Some(surface), marks) {
        let outcome = choose|outcome: Refit| #[trigger]
            refitted_as(refit, text, outcome) && sent == match fitted(text, outcome) {
                Some(text) => Some(extension(text)),
                None => None,
            };
        let slice = choose|slice: &str|
            slice@ == text && #[trigger] call_ensures(refit, (slice,), outcome);
        assert(call_ensures(refit, (slice,), outcome));
        assert(goes_out_fitted(refit, text, sent));
        if target_client_id is Some || mark_replay {
            let read = json::parsed_tree(params@)->0;
            let written = stamped_params(read, marks);
            extension_parameters_are_marked(read, marks);
            if let Some(meta) = markable_meta(read) {
                extension_metadata_is_marked(meta, marks);
            }
            assert(parameters_marked(
                read,
                written,
                mark_replay,
                persist_data,
                target_client_id,
            ));
        }
    }
}

/// A line recorded under any other method, or under none, goes out as the session
/// notification that its parameters are: of the same session, with what the
/// collapser leaves of its update, and with its metadata but for the marks. If it
/// is historical, the mark for that is on it, and where the session is kept, if
/// that is to be known; if it is meant for one client, that client is on it,
/// historical or not. The metadata is made where there was none, and where there
/// is no mark to leave it stays as it was.
pub proof fn a_session_line_goes_out_marked<
    S,
    F: Fn(&str) -> Refit,
    C: Fn(S, agent_client_protocol::SessionUpdate) -> (
        S,
        Option<agent_client_protocol::SessionUpdate>,
    ),
>(
    refit: F,
    collapse: C,
    method: Option<String>,
    params: String,
    persist_data: Option<&Json>,
    target_client_id: Option<&Json>,
    mark_replay: bool,
    collapser: S,
    collapser_after: S,
    sent: Option<NotificationView>,
)
    requires
        method is None || method->0@ != "_x.ai/session/update"@,
        surface_sent(
            refit,
            collapse,
            Some(RawLinePeek { method, params: Some(params) }),
            stamps(persist_data, target_client_id, mark_replay),
            collapser,
            collapser_after,
            sent,
        ),
    ensures
        match session_parts(params@) {
            None => sent is None && collapser_after == collapser,
            Some((session_id, update, meta)) => exists|
                left: Option<agent_client_protocol::SessionUpdate>,
            |
                {
                    &&& #[trigger] call_ensures(
                        collapse,
                        (collapser, update),
                        (collapser_after, left),
                    )
                    &&& left is None ==> sent is None
                    &&& left is Some ==> {
                        &&& sent is Some
                        &&& sent->0 is Session
                        &&& sent->0->Session_0.session_id == session_id
                        &&& sent->0->Session_0.update == left->0
                        &&& notice_marked(
                            meta,
                            sent->0->Session_0.meta,
                            mark_replay,
                            persist_data,
                            target_client_id,
                        )
                    }
                },
        },
{
    let marks = stamps(persist_data, target_client_id, mark_replay);
    if let Some((session_id, update, meta)) = session_parts(params@) {
        let notice = NoticeView { session_id, update, meta };
        let left = choose|left: Option<agent_client_protocol::SessionUpdate>| #[trigger]
            call_ensures(collapse, (collapser, notice.update), (collapser_after, left)) && sent
                == match left {
                Some(update) => Some(sealed(notice, update, marks)),
                None => None,
            };
        assert(call_ensures(collapse, (collapser, update), (collapser_after, left)));
        session_metadata_is_marked(meta, marks);
    }
}

/// Whether `after` is the optional metadata `before` with these marks on it and
/// nothing else changed. Where the session is kept is noted on historical
/// notifications only.
pub open spec fn notice_marked(
    before: Option<Map<Seq<char>, Tree>>,
    after: Option<Map<Seq<char>, Tree>>,
    mark_replay: bool,
    persist_data: Option<&Json>,
    target_client_id: Option<&Json>,
) -> bool {
    if mark_replay || target_client_id is Some {
        &&& after is Some
        &&& marked(
            match before {
                Some(fields) => fields,
                None => Map::empty(),
            },
            after->0,
            mark_replay,
            match persist_data {
                Some(value) => if mark_replay {
                    Some(value@)
                } else {
                    None
                },
                None => None,
            },
            match target_client_id {
                Some(value) => Some(value@),
                None => None,
            },
        )
    } else {
        after == before
    }
}

/// Whether a session notification has the marks on it that were asked for: that
/// it is historical, where the session is kept, and the client that it is meant
/// for. Other notifications are not spoken of.
pub open spec fn has_marks_if_session(
    sent: NotificationView,
    persist_data: Option<&Json>,
    target_client_id: Option<&Json>,
    mark_replay: bool,
) -> bool {
    sent matches NotificationView::Session(notice) ==> {
        &&& mark_replay ==> {
            &&& notice.meta is Some
            &&& notice.meta->0.contains_key("isReplay"@)
            &&& notice.meta->0["isReplay"@] == Tree::Bool(true)
        }
        &&& persist_data matches Some(value) ==> mark_replay ==> {
            &&& notice.meta->0.contains_key("x.ai/persist"@)
            &&& notice.meta->0["x.ai/persist"@] == value@
        }
        &&& target_client_id matches Some(value) ==> {
            &&& notice.meta is Some
            &&& notice.meta->0.contains_key("x.ai/leaderClientId"@)
            &&& notice.meta->0["x.ai/leaderClientId"@] == value@
        }
    }
}

/// Every session notification that a line goes out as has the marks on it that
/// were asked for, whatever metadata was recorded.
pub proof fn every_session_notice_has_its_marks<
    S,
    P: Fn(&str) -> Option<RawLinePeek>,
    F: Fn(&str) -> Refit,
    C: Fn(S, agent_client_protocol::SessionUpdate) -> (
        S,
        Option<agent_client_protocol::SessionUpdate>,
    ),
>(
    peek: P,
    refit: F,
    collapse: C,
    line: Seq<char>,
    persist_data: Option<&Json>,
    target_client_id: Option<&Json>,
    mark_replay: bool,
    collapser: S,
    collapser_after: S,
    sent: Option<NotificationView>,
)
    requires
        line_sent(
            peek,
            refit,
            collapse,
            line,
            stamps(persist_data, target_client_id, mark_replay),
            collapser,
            collapser_after,
            sent,
        ),
    ensures
        sent matches Some(notification) ==> has_marks_if_session(
            notification,
            persist_data,
            target_client_id,
            mark_replay,
        ),
{
    let marks = stamps(persist_data, target_client_id, mark_replay);
    let surface = choose|surface: Option<RawLinePeek>| #[trigger]
        peeked_as(peek, line, surface) && surface_sent(
            refit,
            collapse,
            surface,
            marks,
            collapser,
            collapser_after,
            sent,
        );
    lemma_mark_keys_differ();
    if let RouteView::Session(notice) = route(surface, marks) {
        session_metadata_is_marked(notice.meta, marks);
    }
}

/// A sealed session notification is the one that was to be sealed, with its
/// marks: of the same session, with the same update, and with nothing changed in
/// its metadata but the marks.
pub proof fn sealing_leaves_the_marks_and_nothing_else(
    notice: NoticeView,
    update: agent_client_protocol::SessionUpdate,
    persist_data: Option<&Json>,
    target_client_id: Option<&Json>,
    mark_replay: bool,
)
    ensures
        ({
            let sent = sealed(
                notice,
                update,
                stamps(persist_data, target_client_id, mark_replay),
            );
            &&& sent is Session
            &&& sent->Session_0.session_id == notice.session_id
            &&& sent->Session_0.update == update
            &&& has_marks_if_session(sent, persist_data, target_client_id, mark_replay)
            &&& notice_marked(
                notice.meta,
                sent->Session_0.meta,
                mark_replay,
                persist_data,
                target_client_id,
            )
        }),
{
    lemma_mark_keys_differ();
    session_metadata_is_marked(
        notice.meta,
        stamps(persist_data, target_client_id, mark_replay),
    );
}

/// Whether `params` are those of an aside: the session that was given; an update
/// with the kind of an aside, the whole question, the whole answer and the time
/// of asking; metadata with the mark of being historical and the other marks that
/// were asked for; and nothing else.
pub open spec fn tells_aside(
    params: Tree,
    session_id: Seq<char>,
    entry: BtwEntry,
    persist_data: Option<&Json>,
    target_client_id: Option<&Json>,
) -> bool {
    let fields = params->Object_0;
    let update = fields["update"@]->Object_0;
    &&& params is Object
    &&& forall|key: Seq<char>| #[trigger]
        fields.contains_key(key) <==> key == "sessionId"@ || key == "update"@ || key == "_meta"@
    &&& fields["sessionId"@] == Tree::Text(session_id)
    &&& fields["update"@] is Object
    &&& forall|key: Seq<char>| #[trigger]
        update.contains_key(key) <==> key == "sessionUpdate"@ || key == "question"@ || key
            == "answer"@ || key == "asked_at"@
    &&& update["sessionUpdate"@] == Tree::Text("btw"@)
    &&& update["question"@] == Tree::Text(entry.question@)
    &&& update["answer"@] == Tree::Text(entry.answer@)
    &&& update["asked_at"@] == Tree::Text(
        time::rfc3339_text(entry.asked_at.second(), entry.asked_at.subsec()),
    )
    &&& fields["_meta"@] is Object
    &&& marked(
        Map::empty(),
        fields["_meta"@]->Object_0,
        true,
        match persist_data {
            Some(value) => Some(value@),
            None => None,
        },
        match target_client_id {
            Some(value) => Some(value@),
            None => None,
        },
    )
}

proof fn lemma_aside_keys_differ()
    ensures
        "sessionId"@ != "update"@,
        "sessionId"@ != "_meta"@,
        "update"@ != "_meta"@,
        "sessionUpdate"@ != "question"@,
        "sessionUpdate"@ != "answer"@,
        "sessionUpdate"@ != "asked_at"@,
        "question"@ != "answer"@,
        "question"@ != "asked_at"@,
        "answer"@ != "asked_at"@,
{
    reveal_strlit("sessionId");
    reveal_strlit("update");
    reveal_strlit("_meta");
    reveal_strlit("sessionUpdate");
    reveal_strlit("question");
    reveal_strlit("answer");
    reveal_strlit("asked_at");
    assert("sessionId"@.len() == 9);
    assert("update"@.len() == 6);
    assert("_meta"@.len() == 5);
    assert("sessionUpdate"@.len() == 13);
    assert("answer"@.len() == 6);
    assert("question"@[0] == 'q');
    assert("asked_at"@[0] == 'a');
    assert("asked_at"@.len() == 8);
    assert("question"@.len() == 8);
}

/// An aside is replayed whole: its question and its answer to the last character,
/// the time of asking, and the session that was given.
pub proof fn an_aside_is_told_whole(
    session_id: Seq<char>,
    entry: BtwEntry,
    persist_data: Option<&Json>,
    target_client_id: Option<&Json>,
)
    ensures
        tells_aside(
            btw_params(
                session_id,
                entry,
                value_view(persist_data),
                value_view(target_client_id),
            ),
            session_id,
            entry,
            persist_data,
            target_client_id,
        ),
        forall|params: Seq<char>| #[trigger]
            extension(params) == (NotificationView::Ext {
                method: "x.ai/session/update"@,
                params,
            }),
{
    lemma_aside_keys_differ();
    asides_are_marked(
        session_id,
        entry,
        value_view(persist_data),
        value_view(target_client_id),
    );
}

/// What a route says leaves nothing out of it.
pub proof fn a_route_says_all_that_it_holds(routed: LineRoute)
    ensures
        match routed {
            LineRoute::Skip => routed@ is Skip,
            LineRoute::Ext(params) => routed@ == RouteView::Ext(params@),
            LineRoute::Session(notice) => routed@ == RouteView::Session(notice@),
        },
{
}

} // verus!
