use kovi_plugin_transfer::config::{Source, Target, TransferRule};
use kovi_plugin_transfer::dispatch::{classify_message, usage_reply, Dispatch};
use kovi_plugin_transfer::forward::{
    plan_send, SegmentSlot, SendPlan,
    combined_forward_group, forward_ids, msg_type, plan_forwards, send_request, MsgType,
    SegmentInfo,
};

fn rule(enabled: bool, source: Source, target: Target) -> TransferRule {
    TransferRule { enabled, name: String::new(), source, target }
}

#[test]
fn private_message_forwarded_to_group() {
    let rules = vec![rule(true, Source::Private { qq: 123456 }, Target::Group { group_id: 789012 })];
    let out = plan_forwards(&rules, None, 123456, "张三", 42);
    assert_eq!(out.len(), 1);
    assert_eq!(out[0].target, Target::Group { group_id: 789012 });
    assert_eq!(out[0].label, "[转发自私聊 - 张三(123456)]\n");
    assert!(plan_forwards(&rules, Some(5), 123456, "张三", 42).is_empty());
    assert!(plan_forwards(&rules, None, 1, "x", 42).is_empty());
}

#[test]
fn group_rules_and_order() {
    let rules = vec![
        rule(true, Source::Group { group_id: 789012 }, Target::Group { group_id: 333333 }),
        rule(false, Source::Group { group_id: 789012 }, Target::Group { group_id: 444444 }),
        rule(true, Source::GroupUser { group_id: 789012, qq: 111111 }, Target::Private { qq: 222222 }),
        rule(true, Source::GroupUser { group_id: 789012, qq: 999 }, Target::Private { qq: 222222 }),
    ];
    let out = plan_forwards(&rules, Some(789012), 111111, "李四", 42);
    let targets: Vec<Target> = out.iter().map(|d| d.target).collect();
    assert_eq!(
        targets,
        vec![Target::Group { group_id: 333333 }, Target::Private { qq: 222222 }]
    );
    assert_eq!(out[0].label, "[转发自群 789012 - 李四(111111)]\n");
    assert_eq!(out[1].label, "[转发自群 789012 - 李四(111111)]\n");
}

#[test]
fn forwards_never_loop() {
    let rules = vec![
        rule(true, Source::Group { group_id: 7 }, Target::Group { group_id: 7 }),
        rule(true, Source::Group { group_id: 7 }, Target::Private { qq: 42 }),
        rule(true, Source::Group { group_id: 7 }, Target::Private { qq: 5 }),
        rule(true, Source::Private { qq: 5 }, Target::Private { qq: 5 }),
        rule(true, Source::Private { qq: 5 }, Target::Group { group_id: 0 }),
    ];
    assert!(plan_forwards(&rules, Some(7), 5, "s", 42).is_empty());
    assert!(plan_forwards(&rules, None, 5, "s", 42).is_empty());
}

#[test]
fn disabled_rules_forward_nothing() {
    let rules = vec![
        rule(false, Source::Group { group_id: 7 }, Target::Group { group_id: 8 }),
        rule(false, Source::Private { qq: 5 }, Target::Group { group_id: 8 }),
    ];
    assert!(plan_forwards(&rules, Some(7), 5, "s", 42).is_empty());
    assert!(plan_forwards(&rules, None, 5, "s", 42).is_empty());
}

#[test]
fn message_types() {
    assert_eq!(msg_type(Some(1)), MsgType::Group);
    assert_eq!(msg_type(None), MsgType::Private);
}

#[test]
fn dispatching() {
    match classify_message("  /transfer add private 1 -> group 2 ", 1, 2, true) {
        Dispatch::Command(w) => assert_eq!(w, vec!["/transfer", "add", "private", "1", "->", "group", "2"]),
        _ => panic!("expected a command"),
    }
    assert!(matches!(classify_message("/transfer", 1, 2, true), Dispatch::Usage));
    assert!(matches!(classify_message("/transferx", 1, 2, true), Dispatch::Usage));
    assert!(matches!(classify_message("/transfer list", 1, 2, false), Dispatch::Ignore));
    assert!(matches!(classify_message("/help", 1, 2, true), Dispatch::Ignore));
    assert!(matches!(classify_message("hello", 2, 2, true), Dispatch::Ignore));
    assert!(matches!(classify_message("hello", 1, 2, false), Dispatch::Forward));
    assert!(matches!(classify_message("", 1, 2, false), Dispatch::Forward));
    assert!(matches!(classify_message("\u{3000}/x", 1, 2, false), Dispatch::Ignore));
}

#[test]
fn usage_text() {
    assert_eq!(
        usage_reply(),
        "用法:\n/transfer add <private|group|group_user> <id> [id] -> <private|group> <id>\n/transfer remove <index>\n/transfer list\n/transfer enable <index>\n/transfer disable <index>"
    );
}

fn seg(kind: Option<&str>, id: Option<&str>) -> SegmentInfo {
    SegmentInfo { kind: kind.map(String::from), id: id.map(String::from), url: None, file: None }
}

#[test]
fn combined_forward_ids() {
    let segs = vec![
        seg(Some("text"), None),
        seg(Some("forward"), Some("abc")),
        seg(Some("forward"), None),
        seg(None, Some("zzz")),
        seg(Some("forward"), Some("def")),
    ];
    assert_eq!(forward_ids(&segs), vec!["abc".to_string(), "def".to_string()]);
    assert!(forward_ids(&[]).is_empty());
}

#[test]
fn send_routes() {
    let r = send_request(&Target::Private { qq: 3 });
    assert_eq!((r.action.as_str(), r.id_field.as_str(), r.id), ("send_private_msg", "user_id", 3));
    let r = send_request(&Target::Group { group_id: 4 });
    assert_eq!((r.action.as_str(), r.id_field.as_str(), r.id), ("send_group_msg", "group_id", 4));
    assert_eq!(combined_forward_group(&Target::Group { group_id: 4 }), Some(4));
    assert_eq!(combined_forward_group(&Target::Private { qq: 4 }), None);
}

#[test]
fn send_plans() {
    let segs = vec![seg(Some("text"), None), seg(Some("image"), None)];
    match plan_send(&segs, "L") {
        SendPlan::Plain(slots) => {
            assert_eq!(slots.len(), 3);
            assert!(matches!(&slots[0], SegmentSlot::Label(l) if l == "L"));
            assert!(matches!(slots[1], SegmentSlot::Original(0)));
            assert!(matches!(slots[2], SegmentSlot::Original(1)));
        }
        SendPlan::Combined(_) => panic!("expected a plain send"),
    }
    let segs = vec![seg(Some("forward"), Some("x")), seg(Some("text"), None)];
    match plan_send(&segs, "L") {
        SendPlan::Combined(ids) => assert_eq!(ids, vec!["x".to_string()]),
        SendPlan::Plain(_) => panic!("expected a combined forward"),
    }
}

#[test]
fn plans_split_over_rule_lists_and_ignore_disabled_rules() {
    let r1 = vec![rule(true, Source::Group { group_id: 7 }, Target::Group { group_id: 8 })];
    let r2 = vec![
        rule(false, Source::Group { group_id: 7 }, Target::Group { group_id: 9 }),
        rule(true, Source::GroupUser { group_id: 7, qq: 5 }, Target::Private { qq: 6 }),
    ];
    let all: Vec<TransferRule> = r1.iter().chain(r2.iter()).cloned().collect();
    let targets = |rs: &[TransferRule]| -> Vec<Target> {
        plan_forwards(rs, Some(7), 5, "s", 42).iter().map(|d| d.target).collect()
    };
    let mut joined = targets(&r1);
    joined.extend(targets(&r2));
    assert_eq!(targets(&all), joined);
    let enabled: Vec<TransferRule> = all.iter().filter(|r| r.enabled).cloned().collect();
    assert_eq!(targets(&all), targets(&enabled));
}
