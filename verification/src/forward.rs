//! Which rules a message is forwarded by, and how each forward is sent.
use vstd::prelude::*;
use crate::cmd::{build_forward_label, forward_label_text};
use crate::config::{RuleView, Source, Target, TransferRule, rules_view};
use crate::text::{str_eq, string_of, strings_view};

verus! {

/// Whether a message came from a private chat or from a group.
#[derive(Clone, Copy, Debug, PartialEq, Eq, Structural)]
pub enum MsgType {
    Private,
    Group,
}

/// A message from a group has its group's id; a private one has none.
pub open spec fn msg_type_of(group_id: Option<i64>) -> MsgType {
    if group_id is Some {
        MsgType::Group
    } else {
        MsgType::Private
    }
}

/// The kind of chat a message with this group id came from.
pub fn msg_type(group_id: Option<i64>) -> (t: MsgType)
    ensures
        t == msg_type_of(group_id),
{
    if group_id.is_some() {
        MsgType::Group
    } else {
        MsgType::Private
    }
}

/// The group id used in comparisons: that of the group, or 0 in private.
pub open spec fn group_or_zero(group_id: Option<i64>) -> i64 {
    match group_id {
        Some(g) => g,
        None => 0,
    }
}

/// A source names the chat and sender of a message.
pub open spec fn source_matches(source: Source, group_id: Option<i64>, user_id: i64) -> bool {
    let t = msg_type_of(group_id);
    let gid = group_or_zero(group_id);
    match source {
        Source::Private { qq } => qq == user_id && t == MsgType::Private,
        Source::Group { group_id: g } => g == gid && t == MsgType::Group,
        Source::GroupUser { group_id: g, qq } => g == gid && qq == user_id && t == MsgType::Group,
    }
}

/// A target that would send the message back to the bot itself, to the
/// chat it came from, or to its sender.
pub open spec fn target_loops(target: Target, group_id: Option<i64>, user_id: i64, self_id: i64) -> bool {
    match target {
        Target::Private { qq } => qq == self_id || qq == user_id,
        Target::Group { group_id: g } => g == group_or_zero(group_id),
    }
}

/// A rule forwards the message: it is on, its source matches, and its
/// target does not loop back.
pub open spec fn rule_forwards(rule: RuleView, group_id: Option<i64>, user_id: i64, self_id: i64) -> bool {
    rule.enabled && source_matches(rule.source, group_id, user_id) && !target_loops(
        rule.target,
        group_id,
        user_id,
        self_id,
    )
}

/// One forward to make: where, and the label put before the message.
pub struct Delivery {
    pub target: Target,
    pub label: String,
}

/// The mathematical content of a [`Delivery`].
pub struct DeliveryView {
    pub target: Target,
    pub label: Seq<char>,
}

impl View for Delivery {
    type V = DeliveryView;

    open spec fn view(&self) -> DeliveryView {
        DeliveryView { target: self.target, label: self.label@ }
    }
}

/// The views of a list of deliveries.
pub open spec fn deliveries_view(ds: Seq<Delivery>) -> Seq<DeliveryView> {
    ds.map_values(|d: Delivery| d@)
}

/// The forward a rule makes of a message.
pub open spec fn delivery_of(rule: RuleView, sender_name: Seq<char>, user_id: i64) -> DeliveryView {
    DeliveryView {
        target: rule.target,
        label: forward_label_text(rule.source, sender_name, user_id),
    }
}

/// The forwards of a message, one per forwarding rule, in rule order.
pub open spec fn forward_plan(
    rules: Seq<RuleView>,
    group_id: Option<i64>,
    user_id: i64,
    sender_name: Seq<char>,
    self_id: i64,
) -> Seq<DeliveryView>
    decreases rules.len(),
{
    if rules.len() == 0 {
        Seq::<DeliveryView>::empty()
    } else {
        let before = forward_plan(rules.drop_last(), group_id, user_id, sender_name, self_id);
        if rule_forwards(rules.last(), group_id, user_id, self_id) {
            before.push(delivery_of(rules.last(), sender_name, user_id))
        } else {
            before
        }
    }
}

/// The forwards to make of a message from `user_id` (named `sender_name`),
/// in the group `group_id` or in private, received by the bot `self_id`.
pub fn plan_forwards(
    rules: &[TransferRule],
    group_id: Option<i64>,
    user_id: i64,
    sender_name: &str,
    self_id: i64,
) -> (out: Vec<Delivery>)
    ensures
        deliveries_view(out@) == forward_plan(
            rules_view(rules@),
            group_id,
            user_id,
            sender_name@,
            self_id,
        ),
{
    let ghost rv = rules_view(rules@);
    let mut out: Vec<Delivery> = Vec::new();
    let t = msg_type(group_id);
    let gid: i64 = match group_id {
        Some(g) => g,
        None => 0,
    };
    let mut i: usize = 0;
    while i < rules.len()
        invariant
            i <= rules@.len(),
            rv == rules_view(rules@),
            t == msg_type_of(group_id),
            gid == group_or_zero(group_id),
            deliveries_view(out@) == forward_plan(
                rv.take(i as int),
                group_id,
                user_id,
                sender_name@,
                self_id,
            ),
        decreases rules.len() - i,
    {
        assert(rv.take(i + 1).drop_last() =~= rv.take(i as int));
        let rule = &rules[i];
        let matched = match rule.source {
            Source::Private { qq } => qq == user_id && t == MsgType::Private,
            Source::Group { group_id: g } => g == gid && t == MsgType::Group,
            Source::GroupUser { group_id: g, qq } => g == gid && qq == user_id && t
                == MsgType::Group,
        };
        let loops = match rule.target {
            Target::Private { qq } => qq == self_id || qq == user_id,
            Target::Group { group_id: g } => g == gid,
        };
        if rule.enabled && matched && !loops {
            let label = build_forward_label(&rule.source, sender_name, user_id);
            let ghost before = deliveries_view(out@);
            out.push(Delivery { target: rule.target, label });
            assert(deliveries_view(out@) =~= before.push(
                delivery_of(rv[i as int], sender_name@, user_id),
            ));
        }
        i = i + 1;
    }
    assert(rv.take(i as int) =~= rv);
    out
}

/// Every forward comes from an enabled rule whose source matches the
/// message, with that rule's target and the label for its source.
proof fn lemma_plan_from_rules(
    rules: Seq<RuleView>,
    group_id: Option<i64>,
    user_id: i64,
    sender_name: Seq<char>,
    self_id: i64,
)
    ensures
        forward_plan(rules, group_id, user_id, sender_name, self_id).len() <= rules.len(),
        forall|k: int|
            0 <= k < forward_plan(rules, group_id, user_id, sender_name, self_id).len() ==> exists|
                j: int,
            |
                0 <= j < rules.len() && rule_forwards(rules[j], group_id, user_id, self_id)
                    && #[trigger] forward_plan(rules, group_id, user_id, sender_name, self_id)[k]
                    == delivery_of(rules[j], sender_name, user_id),
    decreases rules.len(),
{
    if rules.len() > 0 {
        let prev = rules.drop_last();
        lemma_plan_from_rules(prev, group_id, user_id, sender_name, self_id);
        let plan = forward_plan(rules, group_id, user_id, sender_name, self_id);
        let pplan = forward_plan(prev, group_id, user_id, sender_name, self_id);
        assert forall|k: int| 0 <= k < plan.len() implies exists|j: int|
            0 <= j < rules.len() && rule_forwards(rules[j], group_id, user_id, self_id)
                && #[trigger] plan[k] == delivery_of(rules[j], sender_name, user_id) by {
            if k < pplan.len() {
                let j = choose|j: int|
                    0 <= j < prev.len() && rule_forwards(prev[j], group_id, user_id, self_id)
                        && #[trigger] pplan[k] == delivery_of(prev[j], sender_name, user_id);
                assert(prev[j] == rules[j]);
                assert(plan[k] == pplan[k]);
            } else {
                assert(plan[k] == delivery_of(rules[rules.len() - 1], sender_name, user_id));
            }
        }
    }
}

/// Every forward of a message comes from an enabled rule whose source
/// matches that message, goes to that rule's target, and carries the label
/// for that rule's source; there are never more forwards than rules.
pub proof fn law_forwards_come_from_matching_rules(
    rules: Seq<RuleView>,
    group_id: Option<i64>,
    user_id: i64,
    sender_name: Seq<char>,
    self_id: i64,
    k: int,
)
    requires
        0 <= k < forward_plan(rules, group_id, user_id, sender_name, self_id).len(),
    ensures
        forward_plan(rules, group_id, user_id, sender_name, self_id).len() <= rules.len(),
        exists|j: int|
            0 <= j < rules.len() && #[trigger] rules[j].enabled && source_matches(
                rules[j].source,
                group_id,
                user_id,
            ) && forward_plan(rules, group_id, user_id, sender_name, self_id)[k] == delivery_of(
                rules[j],
                sender_name,
                user_id,
            ),
{
    lemma_plan_from_rules(rules, group_id, user_id, sender_name, self_id);
    let plan = forward_plan(rules, group_id, user_id, sender_name, self_id);
    let j = choose|j: int|
        0 <= j < rules.len() && rule_forwards(rules[j], group_id, user_id, self_id)
            && #[trigger] plan[k] == delivery_of(rules[j], sender_name, user_id);
    assert(rules[j].enabled);
}

/// No forward goes to the bot itself, to the sender in private, or back to
/// the group the message came from.
pub proof fn law_forwards_never_loop(
    rules: Seq<RuleView>,
    group_id: Option<i64>,
    user_id: i64,
    sender_name: Seq<char>,
    self_id: i64,
    k: int,
)
    requires
        0 <= k < forward_plan(rules, group_id, user_id, sender_name, self_id).len(),
    ensures
        forward_plan(rules, group_id, user_id, sender_name, self_id)[k].target != (Target::Private {
            qq: self_id,
        }),
        forward_plan(rules, group_id, user_id, sender_name, self_id)[k].target != (Target::Private {
            qq: user_id,
        }),
        group_id matches Some(g) ==> forward_plan(
            rules,
            group_id,
            user_id,
            sender_name,
            self_id,
        )[k].target != (Target::Group { group_id: g }),
{
    lemma_plan_from_rules(rules, group_id, user_id, sender_name, self_id);
    let plan = forward_plan(rules, group_id, user_id, sender_name, self_id);
    let j = choose|j: int|
        0 <= j < rules.len() && rule_forwards(rules[j], group_id, user_id, self_id)
            && #[trigger] plan[k] == delivery_of(rules[j], sender_name, user_id);
    assert(!target_loops(rules[j].target, group_id, user_id, self_id));
}

/// Every enabled rule whose source names the message's chat and sender,
/// and whose target is neither the bot, nor the sender in private, nor the
/// chat the message came from (group 0 standing for a private chat), gives
/// a forward to its target with the label for its source.
pub proof fn law_matching_rules_all_forward(
    rules: Seq<RuleView>,
    group_id: Option<i64>,
    user_id: i64,
    sender_name: Seq<char>,
    self_id: i64,
    j: int,
)
    requires
        0 <= j < rules.len(),
        rules[j].enabled,
        match rules[j].source {
            Source::Private { qq } => group_id is None && qq == user_id,
            Source::Group { group_id: g } => group_id == Some(g),
            Source::GroupUser { group_id: g, qq } => group_id == Some(g) && qq == user_id,
        },
        rules[j].target != (Target::Private { qq: self_id }),
        rules[j].target != (Target::Private { qq: user_id }),
        rules[j].target != (Target::Group {
            group_id: match group_id {
                Some(g) => g,
                None => 0,
            },
        }),
    ensures
        exists|k: int|
            0 <= k < forward_plan(rules, group_id, user_id, sender_name, self_id).len()
                && #[trigger] forward_plan(rules, group_id, user_id, sender_name, self_id)[k]
                == (DeliveryView {
                target: rules[j].target,
                label: forward_label_text(rules[j].source, sender_name, user_id),
            }),
    decreases rules.len(),
{
    let plan = forward_plan(rules, group_id, user_id, sender_name, self_id);
    let prev = rules.drop_last();
    let pplan = forward_plan(prev, group_id, user_id, sender_name, self_id);
    if j == rules.len() - 1 {
        assert(rule_forwards(rules[j], group_id, user_id, self_id));
        assert(plan == pplan.push(delivery_of(rules[j], sender_name, user_id)));
        assert(plan[pplan.len() as int] == delivery_of(rules[j], sender_name, user_id));
    } else {
        assert(prev[j] == rules[j]);
        law_matching_rules_all_forward(prev, group_id, user_id, sender_name, self_id, j);
        let k = choose|k: int|
            0 <= k < pplan.len() && #[trigger] pplan[k] == (DeliveryView {
                target: prev[j].target,
                label: forward_label_text(prev[j].source, sender_name, user_id),
            });
        assert(plan[k] == pplan[k]);
    }
}

/// Switching rules off never adds forwards: with every rule disabled no
/// message is forwarded at all.
pub proof fn law_disabled_rules_forward_nothing(
    rules: Seq<RuleView>,
    group_id: Option<i64>,
    user_id: i64,
    sender_name: Seq<char>,
    self_id: i64,
)
    requires
        forall|j: int| 0 <= j < rules.len() ==> !(#[trigger] rules[j]).enabled,
    ensures
        forward_plan(rules, group_id, user_id, sender_name, self_id).len() == 0,
{
    lemma_plan_from_rules(rules, group_id, user_id, sender_name, self_id);
    let plan = forward_plan(rules, group_id, user_id, sender_name, self_id);
    if plan.len() > 0 {
        let j = choose|j: int|
            0 <= j < rules.len() && rule_forwards(rules[j], group_id, user_id, self_id)
                && #[trigger] plan[0] == delivery_of(rules[j], sender_name, user_id);
        assert(!rules[j].enabled);
    }
}

/// The forwards for a list of rules made of two parts are those for the
/// first part followed by those for the second.
pub proof fn law_forward_plan_splits(
    r1: Seq<RuleView>,
    r2: Seq<RuleView>,
    group_id: Option<i64>,
    user_id: i64,
    sender_name: Seq<char>,
    self_id: i64,
)
    ensures
        forward_plan(r1 + r2, group_id, user_id, sender_name, self_id) == forward_plan(
            r1,
            group_id,
            user_id,
            sender_name,
            self_id,
        ) + forward_plan(r2, group_id, user_id, sender_name, self_id),
    decreases r2.len(),
{
    if r2.len() == 0 {
        assert(r1 + r2 =~= r1);
        assert(forward_plan(r1, group_id, user_id, sender_name, self_id) + forward_plan(
            r2,
            group_id,
            user_id,
            sender_name,
            self_id,
        ) =~= forward_plan(r1, group_id, user_id, sender_name, self_id));
    } else {
        law_forward_plan_splits(r1, r2.drop_last(), group_id, user_id, sender_name, self_id);
        assert((r1 + r2).drop_last() =~= r1 + r2.drop_last());
        assert((r1 + r2).last() == r2.last());
        let p1 = forward_plan(r1, group_id, user_id, sender_name, self_id);
        let p2 = forward_plan(r2.drop_last(), group_id, user_id, sender_name, self_id);
        let d = delivery_of(r2.last(), sender_name, user_id);
        assert((p1 + p2).push(d) =~= p1 + p2.push(d));
    }
}

/// Leaving out the disabled rules changes no forward.
pub proof fn law_disabled_rules_change_nothing(
    rules: Seq<RuleView>,
    group_id: Option<i64>,
    user_id: i64,
    sender_name: Seq<char>,
    self_id: i64,
)
    ensures
        forward_plan(rules, group_id, user_id, sender_name, self_id) == forward_plan(
            rules.filter(|r: RuleView| r.enabled),
            group_id,
            user_id,
            sender_name,
            self_id,
        ),
    decreases rules.len(),
{
    reveal(Seq::filter);
    let en = |r: RuleView| r.enabled;
    if rules.len() > 0 {
        law_disabled_rules_change_nothing(rules.drop_last(), group_id, user_id, sender_name, self_id);
        let f = rules.drop_last().filter(en);
        if rules.last().enabled {
            assert(rules.filter(en) == f.push(rules.last()));
            assert(f.push(rules.last()).drop_last() =~= f);
        } else {
            assert(rules.filter(en) == f);
        }
    }
}

/// What is read of one message segment: its type and, from its data, the
/// `id`, `url` and `file` strings (each absent when not a string).
pub struct SegmentInfo {
    pub kind: Option<String>,
    pub id: Option<String>,
    pub url: Option<String>,
    pub file: Option<String>,
}

/// The view of an optional string.
pub open spec fn opt_view(s: Option<String>) -> Option<Seq<char>> {
    match s {
        Some(x) => Some(x@),
        None => None,
    }
}

/// The ids of the combined-forward segments, in order.
pub open spec fn forward_ids_of(segs: Seq<SegmentInfo>) -> Seq<Seq<char>>
    decreases segs.len(),
{
    if segs.len() == 0 {
        Seq::<Seq<char>>::empty()
    } else {
        let before = forward_ids_of(segs.drop_last());
        let s = segs.last();
        if opt_view(s.kind) == Some("forward"@) && s.id is Some {
            before.push(s.id->0@)
        } else {
            before
        }
    }
}

/// Whether an optional string holds exactly `lit`.
fn opt_is(s: &Option<String>, lit: &str) -> (r: bool)
    ensures
        r == (opt_view(*s) == Some(lit@)),
{
    match s {
        Some(x) => str_eq(x.as_str(), lit),
        None => false,
    }
}

/// The ids of the combined-forward segments of a message, in order.
pub fn forward_ids(segs: &[SegmentInfo]) -> (ids: Vec<String>)
    ensures
        strings_view(ids@) == forward_ids_of(segs@),
{
    let mut ids: Vec<String> = Vec::new();
    let mut i: usize = 0;
    while i < segs.len()
        invariant
            i <= segs@.len(),
            strings_view(ids@) == forward_ids_of(segs@.take(i as int)),
        decreases segs.len() - i,
    {
        assert(segs@.take(i + 1).drop_last() =~= segs@.take(i as int));
        let s = &segs[i];
        if opt_is(&s.kind, "forward") {
            match &s.id {
                Some(id) => {
                    let ghost before = strings_view(ids@);
                    ids.push(string_of(id.as_str()));
                    assert(strings_view(ids@) =~= before.push(id@));
                },
                None => {},
            }
        }
        i = i + 1;
    }
    assert(segs@.take(i as int) =~= segs@);
    ids
}

/// The combined-forward ids are exactly the ids of the segments whose type
/// is `forward` and that carry an id, in message order: a segment of any
/// other type (a reply, a face, ...) gives no id, even when it has one.
pub proof fn law_forward_ids_only_from_forward_segments(segs: Seq<SegmentInfo>)
    ensures
        forward_ids_of(segs) == segs.filter(
            |s: SegmentInfo| opt_view(s.kind) == Some("forward"@) && s.id is Some,
        ).map_values(|s: SegmentInfo| s.id->0@),
        (forall|i: int| 0 <= i < segs.len() ==> opt_view(#[trigger] segs[i].kind) != Some("forward"@))
            ==> forward_ids_of(segs).len() == 0,
        (exists|i: int|
            0 <= i < segs.len() && opt_view(#[trigger] segs[i].kind) == Some("forward"@)
                && segs[i].id is Some) ==> forward_ids_of(segs).len() > 0,
    decreases segs.len(),
{
    reveal(Seq::filter);
    let f = |s: SegmentInfo| opt_view(s.kind) == Some("forward"@) && s.id is Some;
    let g = |s: SegmentInfo| s.id->0@;
    if segs.len() > 0 {
        let prev = segs.drop_last();
        law_forward_ids_only_from_forward_segments(prev);
        let pf = prev.filter(f);
        if f(segs.last()) {
            assert(segs.filter(f) == pf.push(segs.last()));
            assert(pf.push(segs.last()).map_values(g) =~= pf.map_values(g).push(g(segs.last())));
        } else {
            assert(segs.filter(f) == pf);
        }
        if forall|i: int| 0 <= i < segs.len() ==> opt_view(#[trigger] segs[i].kind) != Some("forward"@) {
            assert forall|i: int| 0 <= i < prev.len() implies opt_view(#[trigger] prev[i].kind) != Some(
                "forward"@,
            ) by {
                assert(prev[i] == segs[i]);
            }
        }
        if exists|i: int|
            0 <= i < segs.len() && opt_view(#[trigger] segs[i].kind) == Some("forward"@)
                && segs[i].id is Some {
            let i = choose|i: int|
                0 <= i < segs.len() && opt_view(#[trigger] segs[i].kind) == Some("forward"@)
                    && segs[i].id is Some;
            if i < segs.len() - 1 {
                assert(prev[i] == segs[i]);
            }
        }
    }
}

/// One place in a forwarded message: the label, or the segment of the
/// received message at that position.
pub enum SegmentSlot {
    Label(String),
    Original(usize),
}

/// The mathematical content of a [`SegmentSlot`].
pub enum SlotView {
    Label(Seq<char>),
    Original(usize),
}

impl View for SegmentSlot {
    type V = SlotView;

    open spec fn view(&self) -> SlotView {
        match self {
            SegmentSlot::Label(l) => SlotView::Label(l@),
            SegmentSlot::Original(i) => SlotView::Original(*i),
        }
    }
}

/// The views of a list of slots.
pub open spec fn slots_view(v: Seq<SegmentSlot>) -> Seq<SlotView> {
    v.map_values(|s: SegmentSlot| s@)
}

/// The label first, then the `n` received segments in order.
pub open spec fn label_first_layout(label: Seq<char>, n: nat) -> Seq<SlotView> {
    seq![SlotView::Label(label)] + Seq::new(n, |i: int| SlotView::Original(i as usize))
}

/// How a message is forwarded: its combined-forward records by id, or its
/// segments behind the label.
pub enum SendPlan {
    Combined(Vec<String>),
    Plain(Vec<SegmentSlot>),
}

/// A message with combined-forward segments is forwarded as those records;
/// any other message as the label followed by all its segments.
pub fn plan_send(segs: &[SegmentInfo], label: &str) -> (plan: SendPlan)
    ensures
        match plan {
            SendPlan::Combined(ids) => forward_ids_of(segs@).len() > 0 && strings_view(ids@)
                == forward_ids_of(segs@),
            SendPlan::Plain(slots) => forward_ids_of(segs@).len() == 0 && slots_view(slots@)
                == label_first_layout(label@, segs@.len()),
        },
{
    let ids = forward_ids(segs);
    if ids.len() > 0 {
        return SendPlan::Combined(ids);
    }
    let mut slots: Vec<SegmentSlot> = Vec::new();
    slots.push(SegmentSlot::Label(string_of(label)));
    let mut i: usize = 0;
    while i < segs.len()
        invariant
            i <= segs@.len(),
            slots_view(slots@) == label_first_layout(label@, i as nat),
        decreases segs.len() - i,
    {
        let ghost before = slots_view(slots@);
        slots.push(SegmentSlot::Original(i));
        assert(slots_view(slots@) =~= before.push(SlotView::Original(i)));
        assert(label_first_layout(label@, (i + 1) as nat) =~= label_first_layout(label@, i as nat).push(
            SlotView::Original(i),
        ));
        i = i + 1;
    }
    SendPlan::Plain(slots)
}

/// The group a combined forward goes to; only group targets take one.
pub fn combined_forward_group(target: &Target) -> (g: Option<i64>)
    ensures
        g == (match *target {
            Target::Group { group_id } => Some(group_id),
            Target::Private { .. } => None::<i64>,
        }),
{
    match target {
        Target::Group { group_id } => Some(*group_id),
        Target::Private { .. } => None,
    }
}

/// The API call that sends a message to a target: the action's name, the
/// name of the field holding the id, and the id.
pub struct SendRequest {
    pub action: String,
    pub id_field: String,
    pub id: i64,
}

/// The API call that sends a message to `target`.
pub fn send_request(target: &Target) -> (r: SendRequest)
    ensures
        match *target {
            Target::Private { qq } => r.action@ == "send_private_msg"@ && r.id_field@ == "user_id"@
                && r.id == qq,
            Target::Group { group_id } => r.action@ == "send_group_msg"@ && r.id_field@
                == "group_id"@ && r.id == group_id,
        },
{
    match target {
        Target::Private { qq } => SendRequest {
            action: string_of("send_private_msg"),
            id_field: string_of("user_id"),
            id: *qq,
        },
        Target::Group { group_id } => SendRequest {
            action: string_of("send_group_msg"),
            id_field: string_of("group_id"),
            id: *group_id,
        },
    }
}

} // verus!
