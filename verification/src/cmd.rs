//! The `/transfer` command: parsing rules from words, describing rules,
//! and carrying out each subcommand on the configuration.
use vstd::prelude::*;
use vstd::string::*;
use crate::config::{RuleView, Source, Target, TransferConfig, TransferRule, rules_view};
use crate::num::{
    dec_int, dec_nat, is_digit, law_parse_i64_undoes_dec, lemma_dec_nat_digits, parse_i64,
    parse_i64_spec, parse_usize, parse_usize_spec, push_dec_i64, push_dec_u64,
};
use crate::text::{str_eq, string_of};

verus! {

/// How a source is shown to users.
pub open spec fn source_text(source: Source) -> Seq<char> {
    match source {
        Source::Private { qq } => "私聊 QQ "@ + dec_int(qq as int),
        Source::Group { group_id } => "群 "@ + dec_int(group_id as int) + " 全部消息"@,
        Source::GroupUser { group_id, qq } => "群 "@ + dec_int(group_id as int) + " 中 QQ "@
            + dec_int(qq as int) + " 的消息"@,
    }
}

/// How a target is shown to users.
pub open spec fn target_text(target: Target) -> Seq<char> {
    match target {
        Target::Private { qq } => "私聊 QQ "@ + dec_int(qq as int),
        Target::Group { group_id } => "群 "@ + dec_int(group_id as int),
    }
}

/// How a rule is shown in listings, with its 1-based position.
pub open spec fn rule_text(rule: RuleView, index: nat) -> Seq<char> {
    let status = if rule.enabled {
        "[ON]"@
    } else {
        "[OFF]"@
    };
    let label = if rule.name.len() == 0 {
        Seq::<char>::empty()
    } else {
        " ("@ + rule.name + ")"@
    };
    "  #"@ + dec_nat(index) + ". "@ + status + " "@ + source_text(rule.source) + " -> "@
        + target_text(rule.target) + label
}

/// The first line of a forwarded message, naming where it came from.
pub open spec fn forward_label_text(source: Source, sender_name: Seq<char>, user_id: i64) -> Seq<
    char,
> {
    match source {
        Source::Private { .. } => "[转发自私聊 - "@ + sender_name + "("@ + dec_int(user_id as int)
            + ")]\n"@,
        Source::Group { group_id } => "[转发自群 "@ + dec_int(group_id as int) + " - "@
            + sender_name + "("@ + dec_int(user_id as int) + ")]\n"@,
        Source::GroupUser { group_id, .. } => "[转发自群 "@ + dec_int(group_id as int) + " - "@
            + sender_name + "("@ + dec_int(user_id as int) + ")]\n"@,
    }
}

/// Describes a source, e.g. `私聊 QQ 123`.
pub fn describe_source(source: &Source) -> (s: String)
    ensures
        s@ == source_text(*source),
{
    match source {
        Source::Private { qq } => {
            let mut s = string_of("私聊 QQ ");
            push_dec_i64(&mut s, *qq);
            s
        },
        Source::Group { group_id } => {
            let mut s = string_of("群 ");
            push_dec_i64(&mut s, *group_id);
            s.append(" 全部消息");
            s
        },
        Source::GroupUser { group_id, qq } => {
            let mut s = string_of("群 ");
            push_dec_i64(&mut s, *group_id);
            s.append(" 中 QQ ");
            push_dec_i64(&mut s, *qq);
            s.append(" 的消息");
            s
        },
    }
}

/// Describes a target, e.g. `群 456`.
pub fn describe_target(target: &Target) -> (s: String)
    ensures
        s@ == target_text(*target),
{
    match target {
        Target::Private { qq } => {
            let mut s = string_of("私聊 QQ ");
            push_dec_i64(&mut s, *qq);
            s
        },
        Target::Group { group_id } => {
            let mut s = string_of("群 ");
            push_dec_i64(&mut s, *group_id);
            s
        },
    }
}

/// Describes a rule as one line of a listing.
pub fn describe_rule(rule: &TransferRule, index: usize) -> (s: String)
    ensures
        s@ == rule_text(rule@, index as nat),
{
    let mut s = string_of("  #");
    push_dec_u64(&mut s, index as u64);
    s.append(". ");
    if rule.enabled {
        s.append("[ON]");
    } else {
        s.append("[OFF]");
    }
    s.append(" ");
    let src = describe_source(&rule.source);
    s.append(src.as_str());
    s.append(" -> ");
    let tgt = describe_target(&rule.target);
    s.append(tgt.as_str());
    let name_len = rule.name.as_str().unicode_len();
    if name_len != 0 {
        s.append(" (");
        s.append(rule.name.as_str());
        s.append(")");
    }
    assert(s@ =~= rule_text(rule@, index as nat));
    s
}

/// The label put before a forwarded message.
pub fn build_forward_label(source: &Source, sender_name: &str, user_id: i64) -> (s: String)
    ensures
        s@ == forward_label_text(*source, sender_name@, user_id),
{
    let mut s = match source {
        Source::Private { .. } => string_of("[转发自私聊 - "),
        Source::Group { group_id } | Source::GroupUser { group_id, .. } => {
            let mut s = string_of("[转发自群 ");
            push_dec_i64(&mut s, *group_id);
            s.append(" - ");
            s
        },
    };
    s.append(sender_name);
    s.append("(");
    push_dec_i64(&mut s, user_id);
    s.append(")]\n");
    assert(s@ =~= forward_label_text(*source, sender_name@, user_id));
    s
}

/// The characters of each word.
pub open spec fn words_view(parts: Seq<&str>) -> Seq<Seq<char>> {
    parts.map_values(|p: &str| p@)
}

/// The `i`-th word parsed as an `i64`, when there is one.
pub open spec fn id_at(parts: Seq<Seq<char>>, i: int) -> Option<i64> {
    if 0 <= i < parts.len() {
        parse_i64_spec(parts[i])
    } else {
        None
    }
}

/// A source from its kind word and ids: `private <qq>`, `group <group>`
/// or `group_user <group> <qq>`; words after those are ignored.
pub open spec fn source_from_words(parts: Seq<Seq<char>>) -> Option<Source> {
    if parts[0] == "private"@ {
        match id_at(parts, 1) {
            Some(qq) => Some(Source::Private { qq }),
            None => None,
        }
    } else if parts[0] == "group"@ {
        match id_at(parts, 1) {
            Some(group_id) => Some(Source::Group { group_id }),
            None => None,
        }
    } else if parts[0] == "group_user"@ {
        match (id_at(parts, 1), id_at(parts, 2)) {
            (Some(group_id), Some(qq)) => Some(Source::GroupUser { group_id, qq }),
            _ => None,
        }
    } else {
        None
    }
}

/// A target from its kind word and id: `private <qq>` or `group <group>`;
/// words after those are ignored.
pub open spec fn target_from_words(parts: Seq<Seq<char>>) -> Option<Target> {
    if parts[0] == "private"@ {
        match id_at(parts, 1) {
            Some(qq) => Some(Target::Private { qq }),
            None => None,
        }
    } else if parts[0] == "group"@ {
        match id_at(parts, 1) {
            Some(group_id) => Some(Target::Group { group_id }),
            None => None,
        }
    } else {
        None
    }
}

/// The `i`-th word parsed as an `i64`.
fn id_word(parts: &[&str], i: usize) -> (r: Option<i64>)
    ensures
        r == id_at(words_view(parts@), i as int),
{
    if i < parts.len() {
        parse_i64(parts[i])
    } else {
        None
    }
}

/// Parses a source from its words.
pub fn parse_source(parts: &[&str]) -> (r: Option<Source>)
    requires
        parts@.len() >= 1,
    ensures
        r == source_from_words(words_view(parts@)),
{
    let ghost w = words_view(parts@);
    if str_eq(parts[0], "private") {
        match id_word(parts, 1) {
            Some(qq) => Some(Source::Private { qq }),
            None => None,
        }
    } else if str_eq(parts[0], "group") {
        match id_word(parts, 1) {
            Some(group_id) => Some(Source::Group { group_id }),
            None => None,
        }
    } else if str_eq(parts[0], "group_user") {
        let g = id_word(parts, 1);
        match g {
            Some(group_id) => match id_word(parts, 2) {
                Some(qq) => Some(Source::GroupUser { group_id, qq }),
                None => None,
            },
            None => None,
        }
    } else {
        None
    }
}

/// Parses a target from its words.
pub fn parse_target(parts: &[&str]) -> (r: Option<Target>)
    requires
        parts@.len() >= 1,
    ensures
        r == target_from_words(words_view(parts@)),
{
    if str_eq(parts[0], "private") {
        match id_word(parts, 1) {
            Some(qq) => Some(Target::Private { qq }),
            None => None,
        }
    } else if str_eq(parts[0], "group") {
        match id_word(parts, 1) {
            Some(group_id) => Some(Target::Group { group_id }),
            None => None,
        }
    } else {
        None
    }
}

/// Position of the first occurrence of `w` in `parts`.
pub open spec fn first_index_of(parts: Seq<Seq<char>>, w: Seq<char>) -> Option<int>
    decreases parts.len(),
{
    if parts.len() == 0 {
        None
    } else {
        match first_index_of(parts.drop_last(), w) {
            Some(i) => Some(i),
            None => if parts.last() == w {
                Some(parts.len() - 1)
            } else {
                None
            },
        }
    }
}

/// Words joined with single spaces.
pub open spec fn join_spaced(ws: Seq<Seq<char>>) -> Seq<char>
    decreases ws.len(),
{
    if ws.len() == 0 {
        Seq::<char>::empty()
    } else if ws.len() == 1 {
        ws[0]
    } else {
        join_spaced(ws.drop_last()) + " "@ + ws.last()
    }
}

/// The name given to a rule added by the words `parts`, whose arrow is at `a`:
/// the source words and the target words, each kind word followed by the
/// rest joined with spaces, around ` -> `.
pub open spec fn rule_name_from_words(parts: Seq<Seq<char>>, a: int) -> Seq<char> {
    parts[2] + " "@ + join_spaced(parts.subrange(3, a)) + " -> "@ + parts[a + 1] + " "@
        + join_spaced(parts.subrange(a + 2, parts.len() as int))
}

/// The rule that `/transfer add <source words> -> <target words>` adds.
pub open spec fn rule_from_words(parts: Seq<Seq<char>>) -> Option<RuleView> {
    match first_index_of(parts, "->"@) {
        None => None,
        Some(a) => if a < 3 || parts.len() - a < 3 {
            None
        } else {
            match (
                source_from_words(parts.subrange(2, a)),
                target_from_words(parts.subrange(a + 1, parts.len() as int)),
            ) {
                (Some(source), Some(target)) => Some(
                    RuleView { enabled: true, name: rule_name_from_words(parts, a), source, target },
                ),
                _ => None,
            }
        },
    }
}

/// Position of the first `->` word.
fn find_arrow(parts: &[&str]) -> (r: Option<usize>)
    ensures
        r matches Some(a) ==> a < parts@.len() && first_index_of(words_view(parts@), "->"@) == Some(
            a as int,
        ),
        r is None ==> first_index_of(words_view(parts@), "->"@) is None,
{
    let ghost w = words_view(parts@);
    let mut i: usize = 0;
    while i < parts.len()
        invariant
            i <= parts@.len(),
            w == words_view(parts@),
            first_index_of(w.take(i as int), "->"@) is None,
        decreases parts.len() - i,
    {
        assert(w.take(i + 1).drop_last() =~= w.take(i as int));
        if str_eq(parts[i], "->") {
            assert(first_index_of(w.take(i + 1), "->"@) == Some(i as int));
            proof {
                lemma_first_index_prefix(w, i + 1);
            }
            return Some(i);
        }
        i = i + 1;
    }
    assert(w.take(i as int) =~= w);
    None
}

/// A first occurrence within a prefix is the first occurrence overall.
proof fn lemma_first_index_prefix(w: Seq<Seq<char>>, n: int)
    requires
        0 <= n <= w.len(),
        first_index_of(w.take(n), "->"@) is Some,
    ensures
        first_index_of(w, "->"@) == first_index_of(w.take(n), "->"@),
    decreases w.len() - n,
{
    if n < w.len() {
        assert(w.take(n + 1).drop_last() =~= w.take(n));
        lemma_first_index_prefix(w, n + 1);
    } else {
        assert(w.take(n) =~= w);
    }
}

/// Words joined with single spaces.
fn join_words(ws: &[&str]) -> (s: String)
    ensures
        s@ == join_spaced(words_view(ws@)),
{
    let ghost w = words_view(ws@);
    let mut s = String::new();
    let mut i: usize = 0;
    while i < ws.len()
        invariant
            i <= ws@.len(),
            w == words_view(ws@),
            s@ == join_spaced(w.take(i as int)),
        decreases ws.len() - i,
    {
        assert(w.take(i + 1).drop_last() =~= w.take(i as int));
        if i > 0 {
            s.append(" ");
        }
        s.append(ws[i]);
        i = i + 1;
        assert(s@ =~= join_spaced(w.take(i as int)));
    }
    assert(w.take(i as int) =~= w);
    s
}

/// Parses the words of `/transfer add <source words> -> <target words>` into
/// an enabled rule named after those words.
pub fn parse_add_rule(parts: &[&str]) -> (r: Option<TransferRule>)
    ensures
        r matches Some(rule) ==> rule_from_words(words_view(parts@)) == Some(rule@),
        r is None ==> rule_from_words(words_view(parts@)) is None,
{
    let ghost w = words_view(parts@);
    let a = match find_arrow(parts) {
        Some(a) => a,
        None => return None,
    };
    if a < 3 || parts.len() - a < 3 {
        return None;
    }
    let src_words = &parts[2..a];
    assert(words_view(src_words@) =~= w.subrange(2, a as int));
    let source = match parse_source(src_words) {
        Some(s) => s,
        None => return None,
    };
    let tgt_words = &parts[a + 1..parts.len()];
    assert(words_view(tgt_words@) =~= w.subrange(a + 1, w.len() as int));
    let target = match parse_target(tgt_words) {
        Some(t) => t,
        None => return None,
    };
    let mut name = string_of(parts[2]);
    name.append(" ");
    let mid = join_words(&parts[3..a]);
    assert(words_view(parts@.subrange(3, a as int)) =~= w.subrange(3, a as int));
    name.append(mid.as_str());
    name.append(" -> ");
    name.append(parts[a + 1]);
    name.append(" ");
    let tail = join_words(&parts[a + 2..parts.len()]);
    assert(words_view(parts@.subrange(a + 2, parts@.len() as int)) =~= w.subrange(
        a + 2,
        w.len() as int,
    ));
    name.append(tail.as_str());
    let rule = TransferRule { enabled: true, name, source, target };
    assert(rule@.name =~= rule_name_from_words(w, a as int));
    Some(rule)
}

/// What a subcommand does: the rules afterwards, the reply, and whether
/// the rules were written (and so are to be stored).
pub struct CommandEffect {
    pub rules: Seq<RuleView>,
    pub reply: Seq<char>,
    pub changed: bool,
}

/// What carrying out a subcommand gave: the reply, and whether the rules
/// were written (and so are to be stored).
pub struct CommandOutcome {
    pub reply: String,
    pub changed: bool,
}

/// The third word as a 1-based index, when it is one.
pub open spec fn index_arg(parts: Seq<Seq<char>>) -> Option<usize> {
    if parts.len() > 2 {
        parse_usize_spec(parts[2])
    } else {
        None
    }
}

/// Reply for an index outside `1..=len`.
pub open spec fn invalid_index_text(idx: usize, len: nat) -> Seq<char> {
    "索引无效: "@ + dec_nat(idx as nat) + "（有效范围 1-"@ + dec_nat(len) + "）"@
}

/// The listing lines of the first `n` rules, each after a line break.
pub open spec fn listing_lines(rules: Seq<RuleView>, n: nat) -> Seq<char>
    decreases n,
{
    if n == 0 || n > rules.len() {
        Seq::<char>::empty()
    } else {
        listing_lines(rules, (n - 1) as nat) + "\n"@ + rule_text(rules[n - 1], n)
    }
}

/// `rules` with the rule at 0-based position `i` switched on or off.
pub open spec fn with_enabled(rules: Seq<RuleView>, i: int, on: bool) -> Seq<RuleView> {
    rules.update(
        i,
        RuleView { enabled: on, name: rules[i].name, source: rules[i].source, target: rules[i].target },
    )
}

/// `add`: appends the parsed rule.
pub open spec fn add_effect(rules: Seq<RuleView>, parts: Seq<Seq<char>>) -> CommandEffect {
    match rule_from_words(parts) {
        Some(rule) => {
            let after = rules.push(rule);
            CommandEffect {
                rules: after,
                reply: "[OK] 已添加规则 #"@ + dec_nat(after.len()) + ", 共 "@ + dec_nat(after.len())
                    + " 条规则"@,
                changed: true,
            }
        },
        None => CommandEffect {
            rules,
            reply: "格式: /transfer add <private|group|group_user> <id1> [id2] -> <private|group> <id>"@,
            changed: false,
        },
    }
}

/// `remove`: takes out the rule at the given 1-based index.
pub open spec fn remove_effect(rules: Seq<RuleView>, parts: Seq<Seq<char>>) -> CommandEffect {
    match index_arg(parts) {
        Some(idx) => if idx < 1 || idx > rules.len() {
            CommandEffect { rules, reply: invalid_index_text(idx, rules.len()), changed: false }
        } else {
            CommandEffect {
                rules: rules.remove(idx - 1),
                reply: "[OK] 已移除规则 #"@ + dec_nat(idx as nat) + " ("@ + rule_text(
                    rules[idx - 1],
                    idx as nat,
                ) + ")"@,
                changed: true,
            }
        },
        None => CommandEffect { rules, reply: "用法: /transfer remove <索引>"@, changed: false },
    }
}

/// `list`: shows every rule with its 1-based index.
pub open spec fn list_effect(rules: Seq<RuleView>) -> CommandEffect {
    CommandEffect {
        rules,
        reply: if rules.len() == 0 {
            "暂无转发规则。"@
        } else {
            "转发规则列表:"@ + listing_lines(rules, rules.len())
        },
        changed: false,
    }
}

/// `enable` / `disable`: switches the rule at the given 1-based index.
pub open spec fn toggle_effect(rules: Seq<RuleView>, parts: Seq<Seq<char>>, on: bool) -> CommandEffect {
    match index_arg(parts) {
        Some(idx) => if idx < 1 || idx > rules.len() {
            CommandEffect { rules, reply: invalid_index_text(idx, rules.len()), changed: false }
        } else {
            CommandEffect {
                rules: with_enabled(rules, idx - 1, on),
                reply: (if on {
                    "[OK] 已启用规则 #"@
                } else {
                    "[OK] 已禁用规则 #"@
                }) + dec_nat(idx as nat),
                changed: true,
            }
        },
        None => CommandEffect {
            rules,
            reply: if on {
                "用法: /transfer enable <索引>"@
            } else {
                "用法: /transfer disable <索引>"@
            },
            changed: false,
        },
    }
}

/// The effect of `/transfer <subcommand> ...` given as words (the first
/// word is the command itself).
pub open spec fn command_effect(rules: Seq<RuleView>, parts: Seq<Seq<char>>) -> CommandEffect {
    let sub = parts[1];
    if sub == "add"@ {
        add_effect(rules, parts)
    } else if sub == "remove"@ || sub == "del"@ || sub == "delete"@ {
        remove_effect(rules, parts)
    } else if sub == "list"@ {
        list_effect(rules)
    } else if sub == "enable"@ || sub == "on"@ {
        toggle_effect(rules, parts, true)
    } else if sub == "disable"@ || sub == "off"@ {
        toggle_effect(rules, parts, false)
    } else {
        CommandEffect { rules, reply: "未知子命令。可用: add, remove, list, enable, disable"@, changed: false }
    }
}

/// A rendered number holds no space.
proof fn lemma_dec_no_space(n: i64)
    ensures
        forall|i: int| 0 <= i < dec_int(n as int).len() ==> #[trigger] dec_int(n as int)[i] != ' ',
{
    let s = dec_int(n as int);
    assert(' ' as u32 == 32);
    if n < 0 {
        let m = dec_nat((-n) as nat);
        lemma_dec_nat_digits((-n) as nat);
        assert forall|i: int| 0 <= i < s.len() implies #[trigger] s[i] != ' ' by {
            if i > 0 {
                assert(s[i] == m[i - 1]);
                assert(is_digit(m[i - 1]));
            }
        }
    } else {
        lemma_dec_nat_digits(n as nat);
        assert forall|i: int| 0 <= i < s.len() implies #[trigger] s[i] != ' ' by {
            assert(is_digit(s[i]));
        }
    }
}

/// Distinct numbers have distinct renderings.
proof fn lemma_dec_injective(a: i64, b: i64)
    requires
        dec_int(a as int) == dec_int(b as int),
    ensures
        a == b,
{
    law_parse_i64_undoes_dec(a);
    law_parse_i64_undoes_dec(b);
}

/// Two texts each made of a space-free part and a rest starting with a
/// space are equal only part by part.
proof fn lemma_split_at_space(d1: Seq<char>, s1: Seq<char>, d2: Seq<char>, s2: Seq<char>)
    requires
        forall|i: int| 0 <= i < d1.len() ==> #[trigger] d1[i] != ' ',
        forall|i: int| 0 <= i < d2.len() ==> #[trigger] d2[i] != ' ',
        s1.len() > 0 && s1[0] == ' ',
        s2.len() > 0 && s2[0] == ' ',
        d1 + s1 == d2 + s2,
    ensures
        d1 == d2,
        s1 == s2,
{
    let t = d1 + s1;
    if d1.len() < d2.len() {
        assert(t[d1.len() as int] == s1[0]);
        assert((d2 + s2)[d1.len() as int] == d2[d1.len() as int]);
    } else if d2.len() < d1.len() {
        assert((d2 + s2)[d2.len() as int] == s2[0]);
        assert(t[d2.len() as int] == d1[d2.len() as int]);
    } else {
        assert(d1 =~= t.take(d1.len() as int));
        assert(d2 =~= (d2 + s2).take(d2.len() as int));
        assert(s1 =~= t.skip(d1.len() as int));
        assert(s2 =~= (d2 + s2).skip(d2.len() as int));
    }
}

/// Texts with a common beginning are equal only if the rests are.
proof fn lemma_strip_prefix(p: Seq<char>, x: Seq<char>, y: Seq<char>)
    requires
        p + x == p + y,
    ensures
        x == y,
{
    assert(x =~= (p + x).skip(p.len() as int));
    assert(y =~= (p + y).skip(p.len() as int));
}

/// Distinct sources are described differently.
pub proof fn law_source_text_injective(a: Source, b: Source)
    requires
        source_text(a) == source_text(b),
    ensures
        a == b,
{
    reveal_strlit("私聊 QQ ");
    reveal_strlit("群 ");
    reveal_strlit(" 全部消息");
    reveal_strlit(" 中 QQ ");
    reveal_strlit(" 的消息");
    let pp = "私聊 QQ "@;
    let pg = "群 "@;
    let all = " 全部消息"@;
    let mid = " 中 QQ "@;
    let tail = " 的消息"@;
    assert(pp[0] == '私' && pg[0] == '群' && all[0] == ' ' && mid[0] == ' ' && tail[0] == ' ');
    assert(all[1] == '全' && mid[1] == '中');
    match (a, b) {
        (Source::Private { qq: q1 }, Source::Private { qq: q2 }) => {
            lemma_strip_prefix(pp, dec_int(q1 as int), dec_int(q2 as int));
            lemma_dec_injective(q1, q2);
        },
        (Source::Private { .. }, _) => {
            assert(source_text(a)[0] == pp[0]);
            assert(source_text(b)[0] == pg[0]);
        },
        (_, Source::Private { .. }) => {
            assert(source_text(a)[0] == pg[0]);
            assert(source_text(b)[0] == pp[0]);
        },
        _ => {
            let (g1, r1) = match a {
                Source::Group { group_id } => (group_id, all),
                Source::GroupUser { group_id, qq } => (group_id, mid + dec_int(qq as int) + tail),
                Source::Private { qq } => (qq, all),
            };
            let (g2, r2) = match b {
                Source::Group { group_id } => (group_id, all),
                Source::GroupUser { group_id, qq } => (group_id, mid + dec_int(qq as int) + tail),
                Source::Private { qq } => (qq, all),
            };
            assert(source_text(a) =~= pg + (dec_int(g1 as int) + r1));
            assert(source_text(b) =~= pg + (dec_int(g2 as int) + r2));
            lemma_strip_prefix(pg, dec_int(g1 as int) + r1, dec_int(g2 as int) + r2);
            lemma_dec_no_space(g1);
            lemma_dec_no_space(g2);
            assert(r1[0] == ' ' && r2[0] == ' ');
            lemma_split_at_space(dec_int(g1 as int), r1, dec_int(g2 as int), r2);
            lemma_dec_injective(g1, g2);
            match (a, b) {
                (Source::Group { .. }, Source::GroupUser { .. }) => {
                    assert(r1[1] == all[1]);
                    assert(r2[1] == mid[1]);
                },
                (Source::GroupUser { .. }, Source::Group { .. }) => {
                    assert(r1[1] == mid[1]);
                    assert(r2[1] == all[1]);
                },
                (Source::GroupUser { qq: q1, .. }, Source::GroupUser { qq: q2, .. }) => {
                    assert(r1 =~= mid + (dec_int(q1 as int) + tail));
                    assert(r2 =~= mid + (dec_int(q2 as int) + tail));
                    lemma_strip_prefix(mid, dec_int(q1 as int) + tail, dec_int(q2 as int) + tail);
                    lemma_dec_no_space(q1);
                    lemma_dec_no_space(q2);
                    lemma_split_at_space(dec_int(q1 as int), tail, dec_int(q2 as int), tail);
                    lemma_dec_injective(q1, q2);
                },
                _ => {},
            }
        },
    }
}

/// The start of a rule's listing line, up to its status word.
pub open spec fn rule_text_head(index: nat) -> Seq<char> {
    "  #"@ + dec_nat(index) + ". "@
}

/// The rest of a rule's listing line, after its status word.
pub open spec fn rule_text_tail(rule: RuleView) -> Seq<char> {
    let label = if rule.name.len() == 0 {
        Seq::<char>::empty()
    } else {
        " ("@ + rule.name + ")"@
    };
    " "@ + source_text(rule.source) + " -> "@ + target_text(rule.target) + label
}

/// A rule's listing line is the same whether it is on or off but for the
/// status word `[ON]` or `[OFF]`, which is the first `[` of the line.
pub proof fn law_rule_text_status_only(rule: RuleView, index: nat)
    ensures
        rule_text(RuleView { enabled: true, ..rule }, index) == rule_text_head(index) + "[ON]"@
            + rule_text_tail(rule),
        rule_text(RuleView { enabled: false, ..rule }, index) == rule_text_head(index) + "[OFF]"@
            + rule_text_tail(rule),
        forall|i: int| 0 <= i < rule_text_head(index).len() ==> #[trigger] rule_text_head(index)[i] != '[',
{
    reveal_strlit("  #");
    reveal_strlit(". ");
    let on = RuleView { enabled: true, ..rule };
    let off = RuleView { enabled: false, ..rule };
    assert(rule_text(on, index) =~= rule_text_head(index) + "[ON]"@ + rule_text_tail(rule));
    assert(rule_text(off, index) =~= rule_text_head(index) + "[OFF]"@ + rule_text_tail(rule));
    let h = rule_text_head(index);
    let d = dec_nat(index);
    lemma_dec_nat_digits(index);
    assert('[' as u32 == 91);
    assert forall|i: int| 0 <= i < h.len() implies #[trigger] h[i] != '[' by {
        if 3 <= i < 3 + d.len() {
            assert(h[i] == d[i - 3]);
            assert(is_digit(d[i - 3]));
        }
    }
}

/// The words naming a source in an `add` command.
pub open spec fn source_words(source: Source) -> Seq<Seq<char>> {
    match source {
        Source::Private { qq } => seq!["private"@, dec_int(qq as int)],
        Source::Group { group_id } => seq!["group"@, dec_int(group_id as int)],
        Source::GroupUser { group_id, qq } => seq![
            "group_user"@,
            dec_int(group_id as int),
            dec_int(qq as int),
        ],
    }
}

/// The words naming a target in an `add` command.
pub open spec fn target_words(target: Target) -> Seq<Seq<char>> {
    match target {
        Target::Private { qq } => seq!["private"@, dec_int(qq as int)],
        Target::Group { group_id } => seq!["group"@, dec_int(group_id as int)],
    }
}

/// The words of `<cmd> <sub> <source words> -> <target words>`.
pub open spec fn add_words(cmd: Seq<char>, sub: Seq<char>, source: Source, target: Target) -> Seq<
    Seq<char>,
> {
    seq![cmd, sub] + source_words(source) + seq!["->"@] + target_words(target)
}

proof fn lemma_first_index_none(ws: Seq<Seq<char>>, w: Seq<char>)
    requires
        forall|j: int| 0 <= j < ws.len() ==> ws[j] != w,
    ensures
        first_index_of(ws, w) is None,
    decreases ws.len(),
{
    if ws.len() > 0 {
        lemma_first_index_none(ws.drop_last(), w);
    }
}

proof fn lemma_first_index_at(ws: Seq<Seq<char>>, w: Seq<char>, a: int)
    requires
        0 <= a < ws.len(),
        ws[a] == w,
        forall|j: int| 0 <= j < a ==> ws[j] != w,
    ensures
        first_index_of(ws, w) == Some(a),
    decreases ws.len(),
{
    if a == ws.len() - 1 {
        lemma_first_index_none(ws.drop_last(), w);
    } else {
        lemma_first_index_at(ws.drop_last(), w, a);
    }
}

/// A rendered number is never the arrow word.
proof fn lemma_dec_not_arrow(n: i64)
    ensures
        dec_int(n as int) != "->"@,
{
    reveal_strlit("->");
    let s = dec_int(n as int);
    if n < 0 {
        lemma_dec_nat_digits((-n) as nat);
        assert(s[1] == dec_nat((-n) as nat)[0]);
        assert(is_digit(s[1]));
        assert('>' as u32 == 62);
    } else {
        lemma_dec_nat_digits(n as nat);
        assert(is_digit(s[0]));
        assert('-' as u32 == 45);
    }
}

proof fn lemma_kind_words_distinct()
    ensures
        "private"@ != "->"@,
        "group"@ != "->"@,
        "group_user"@ != "->"@,
        "group"@ != "private"@,
        "group_user"@ != "private"@,
        "group_user"@ != "group"@,
{
    reveal_strlit("->");
    reveal_strlit("private");
    reveal_strlit("group");
    reveal_strlit("group_user");
    assert("->"@.len() == 2);
    assert("private"@.len() == 7);
    assert("group"@.len() == 5);
    assert("group_user"@.len() == 10);
}

/// The subcommand words differ from each other.
proof fn lemma_subcommands_distinct()
    ensures
        "remove"@ != "add"@,
        "del"@ != "add"@,
        "delete"@ != "add"@,
        "disable"@ != "add"@,
        "disable"@ != "remove"@,
        "disable"@ != "del"@,
        "disable"@ != "delete"@,
        "disable"@ != "list"@,
        "disable"@ != "enable"@,
        "disable"@ != "on"@,
        "enable"@ != "add"@,
        "enable"@ != "remove"@,
        "enable"@ != "del"@,
        "enable"@ != "delete"@,
        "enable"@ != "list"@,
{
    reveal_strlit("add");
    reveal_strlit("remove");
    reveal_strlit("del");
    reveal_strlit("delete");
    reveal_strlit("list");
    reveal_strlit("enable");
    reveal_strlit("on");
    reveal_strlit("disable");
    assert("add"@.len() == 3 && "add"@[0] == 'a');
    assert("remove"@.len() == 6 && "remove"@[0] == 'r');
    assert("del"@.len() == 3 && "del"@[0] == 'd');
    assert("delete"@.len() == 6 && "delete"@[0] == 'd');
    assert("list"@.len() == 4);
    assert("enable"@.len() == 6 && "enable"@[0] == 'e');
    assert("on"@.len() == 2);
    assert("disable"@.len() == 7);
}

/// A source's words parse back to it.
proof fn lemma_source_words_parse(source: Source)
    ensures
        source_from_words(source_words(source)) == Some(source),
{
    lemma_kind_words_distinct();
    match source {
        Source::Private { qq } => {
            law_parse_i64_undoes_dec(qq);
        },
        Source::Group { group_id } => {
            law_parse_i64_undoes_dec(group_id);
        },
        Source::GroupUser { group_id, qq } => {
            law_parse_i64_undoes_dec(group_id);
            law_parse_i64_undoes_dec(qq);
        },
    }
}

/// A target's words parse back to it.
proof fn lemma_target_words_parse(target: Target)
    ensures
        target_from_words(target_words(target)) == Some(target),
{
    lemma_kind_words_distinct();
    match target {
        Target::Private { qq } => {
            law_parse_i64_undoes_dec(qq);
        },
        Target::Group { group_id } => {
            law_parse_i64_undoes_dec(group_id);
        },
    }
}

/// `add` given a source's and a target's words, in the form the usage text
/// shows, adds an enabled rule with exactly that source and target.
pub proof fn law_add_words_give_rule(cmd: Seq<char>, sub: Seq<char>, source: Source, target: Target)
    requires
        cmd != "->"@,
        sub != "->"@,
    ensures
        rule_from_words(add_words(cmd, sub, source, target)) matches Some(r) && r.enabled
            && r.source == source && r.target == target,
{
    let ws = add_words(cmd, sub, source, target);
    let sw = source_words(source);
    let tw = target_words(target);
    let a: int = 2 + sw.len() as int;
    lemma_kind_words_distinct();
    assert forall|j: int| 0 <= j < a implies ws[j] != "->"@ by {
        if j >= 2 {
            assert(ws[j] == sw[j - 2]);
            match source {
                Source::Private { qq } => {
                    lemma_dec_not_arrow(qq);
                },
                Source::Group { group_id } => {
                    lemma_dec_not_arrow(group_id);
                },
                Source::GroupUser { group_id, qq } => {
                    lemma_dec_not_arrow(group_id);
                    lemma_dec_not_arrow(qq);
                },
            }
        }
    }
    lemma_first_index_at(ws, "->"@, a);
    assert(ws.subrange(2, a) =~= sw);
    assert(ws.subrange(a + 1, ws.len() as int) =~= tw);
    lemma_source_words_parse(source);
    lemma_target_words_parse(target);
}

/// A subcommand that reports no change leaves the rules as they were.
pub proof fn law_unchanged_unless_reported(rules: Seq<RuleView>, parts: Seq<Seq<char>>)
    requires
        parts.len() >= 2,
    ensures
        !command_effect(rules, parts).changed ==> command_effect(rules, parts).rules == rules,
{
}

/// Removing the rule just added, by its index, gives back the rules as
/// they were.
pub proof fn law_remove_undoes_add(
    rules: Seq<RuleView>,
    add_parts: Seq<Seq<char>>,
    remove_parts: Seq<Seq<char>>,
)
    requires
        add_parts.len() >= 2,
        add_parts[1] == "add"@,
        rule_from_words(add_parts) is Some,
        remove_parts.len() >= 2,
        remove_parts[1] == "remove"@,
        index_arg(remove_parts) matches Some(k) && k == rules.len() + 1,
    ensures
        command_effect(command_effect(rules, add_parts).rules, remove_parts).rules == rules,
{
    lemma_subcommands_distinct();
    let after = command_effect(rules, add_parts).rules;
    assert(after == rules.push(rule_from_words(add_parts)->0));
    assert(after.remove(rules.len() as int) =~= rules);
}

/// Removing the rule at a valid 1-based index `i` keeps the other rules in
/// their order: those before it stay where they were and those after it
/// move up by one, so each later rule's index drops by one.
pub proof fn law_remove_keeps_order(rules: Seq<RuleView>, parts: Seq<Seq<char>>)
    requires
        parts.len() >= 2,
        parts[1] == "remove"@ || parts[1] == "del"@ || parts[1] == "delete"@,
        index_arg(parts) matches Some(i) && 1 <= i <= rules.len(),
    ensures
        command_effect(rules, parts).changed,
        command_effect(rules, parts).rules.len() == rules.len() - 1,
        forall|j: int|
            0 <= j < index_arg(parts)->0 - 1 ==> #[trigger] command_effect(rules, parts).rules[j]
                == rules[j],
        forall|j: int|
            index_arg(parts)->0 - 1 <= j < rules.len() - 1 ==> #[trigger] command_effect(
                rules,
                parts,
            ).rules[j] == rules[j + 1],
{
    lemma_subcommands_distinct();
}

/// Enabling a rule that was just disabled, by the same index, gives back
/// the rules as they were when that rule was on; disabling an enabled rule
/// and enabling it again is the same as enabling it alone.
pub proof fn law_enable_undoes_disable(
    rules: Seq<RuleView>,
    off_parts: Seq<Seq<char>>,
    on_parts: Seq<Seq<char>>,
)
    requires
        off_parts.len() >= 2,
        off_parts[1] == "disable"@,
        on_parts.len() >= 2,
        on_parts[1] == "enable"@,
        index_arg(off_parts) is Some,
        index_arg(on_parts) == index_arg(off_parts),
    ensures
        command_effect(command_effect(rules, off_parts).rules, on_parts).rules == command_effect(
            rules,
            on_parts,
        ).rules,
        index_arg(on_parts) matches Some(k) && 1 <= k <= rules.len() && rules[k - 1].enabled
            ==> command_effect(command_effect(rules, off_parts).rules, on_parts).rules == rules,
{
    lemma_subcommands_distinct();
    let k = index_arg(off_parts)->0;
    let after = command_effect(rules, off_parts).rules;
    if 1 <= k <= rules.len() {
        assert(with_enabled(after, k - 1, true) =~= with_enabled(rules, k - 1, true));
        if rules[k - 1].enabled {
            assert(with_enabled(rules, k - 1, true) =~= rules);
        }
    }
}

/// The third word parsed as an index.
fn index_word(parts: &[&str]) -> (r: Option<usize>)
    ensures
        r == index_arg(words_view(parts@)),
{
    if parts.len() > 2 {
        parse_usize(parts[2])
    } else {
        None
    }
}

/// Reply for an index outside `1..=len`.
fn invalid_index_reply(idx: usize, len: usize) -> (s: String)
    ensures
        s@ == invalid_index_text(idx, len as nat),
{
    let mut s = string_of("索引无效: ");
    push_dec_u64(&mut s, idx as u64);
    s.append("（有效范围 1-");
    push_dec_u64(&mut s, len as u64);
    s.append("）");
    s
}

fn add_rule(config: &mut TransferConfig, parts: &[&str]) -> (out: CommandOutcome)
    ensures
        final(config)@ == add_effect(old(config)@, words_view(parts@)).rules,
        out.reply@ == add_effect(old(config)@, words_view(parts@)).reply,
        out.changed == add_effect(old(config)@, words_view(parts@)).changed,
{
    match parse_add_rule(parts) {
        Some(rule) => {
            let ghost rv = rule@;
            config.rules.push(rule);
            assert(config@ =~= old(config)@.push(rv));
            let n = config.rules.len();
            let mut reply = string_of("[OK] 已添加规则 #");
            push_dec_u64(&mut reply, n as u64);
            reply.append(", 共 ");
            push_dec_u64(&mut reply, n as u64);
            reply.append(" 条规则");
            CommandOutcome { reply, changed: true }
        },
        None => CommandOutcome {
            reply: string_of(
                "格式: /transfer add <private|group|group_user> <id1> [id2] -> <private|group> <id>",
            ),
            changed: false,
        },
    }
}

fn remove_rule(config: &mut TransferConfig, parts: &[&str]) -> (out: CommandOutcome)
    ensures
        final(config)@ == remove_effect(old(config)@, words_view(parts@)).rules,
        out.reply@ == remove_effect(old(config)@, words_view(parts@)).reply,
        out.changed == remove_effect(old(config)@, words_view(parts@)).changed,
{
    match index_word(parts) {
        Some(idx) => {
            let len = config.rules.len();
            if idx < 1 || idx > len {
                CommandOutcome { reply: invalid_index_reply(idx, len), changed: false }
            } else {
                let removed = config.rules.remove(idx - 1);
                assert(config@ =~= old(config)@.remove(idx - 1));
                let mut reply = string_of("[OK] 已移除规则 #");
                push_dec_u64(&mut reply, idx as u64);
                reply.append(" (");
                let d = describe_rule(&removed, idx);
                reply.append(d.as_str());
                reply.append(")");
                CommandOutcome { reply, changed: true }
            }
        },
        None => CommandOutcome { reply: string_of("用法: /transfer remove <索引>"), changed: false },
    }
}

fn list_rules(config: &TransferConfig) -> (out: CommandOutcome)
    ensures
        out.reply@ == list_effect(config@).reply,
        out.changed == false,
{
    let n = config.rules.len();
    if n == 0 {
        return CommandOutcome { reply: string_of("暂无转发规则。"), changed: false };
    }
    let ghost rv = config@;
    let mut reply = string_of("转发规则列表:");
    let mut i: usize = 0;
    while i < n
        invariant
            n == config.rules@.len(),
            rv == config@,
            i <= n,
            reply@ == "转发规则列表:"@ + listing_lines(rv, i as nat),
        decreases n - i,
    {
        reply.append("\n");
        let line = describe_rule(&config.rules[i], i + 1);
        reply.append(line.as_str());
        i = i + 1;
        assert(reply@ =~= "转发规则列表:"@ + listing_lines(rv, i as nat));
    }
    CommandOutcome { reply, changed: false }
}

fn toggle_rule(config: &mut TransferConfig, parts: &[&str], on: bool) -> (out: CommandOutcome)
    ensures
        final(config)@ == toggle_effect(old(config)@, words_view(parts@), on).rules,
        out.reply@ == toggle_effect(old(config)@, words_view(parts@), on).reply,
        out.changed == toggle_effect(old(config)@, words_view(parts@), on).changed,
{
    match index_word(parts) {
        Some(idx) => {
            let len = config.rules.len();
            if idx < 1 || idx > len {
                CommandOutcome { reply: invalid_index_reply(idx, len), changed: false }
            } else {
                config.rules[idx - 1].enabled = on;
                assert(config@ =~= with_enabled(old(config)@, idx - 1, on));
                let mut reply = if on {
                    string_of("[OK] 已启用规则 #")
                } else {
                    string_of("[OK] 已禁用规则 #")
                };
                push_dec_u64(&mut reply, idx as u64);
                CommandOutcome { reply, changed: true }
            }
        },
        None => CommandOutcome {
            reply: if on {
                string_of("用法: /transfer enable <索引>")
            } else {
                string_of("用法: /transfer disable <索引>")
            },
            changed: false,
        },
    }
}

/// Carries out `/transfer <subcommand> ...` on the rules; `parts` are the
/// words of the command, the subcommand second.
pub fn handle_command(config: &mut TransferConfig, parts: &[&str]) -> (out: CommandOutcome)
    requires
        parts@.len() >= 2,
    ensures
        final(config)@ == command_effect(old(config)@, words_view(parts@)).rules,
        out.reply@ == command_effect(old(config)@, words_view(parts@)).reply,
        out.changed == command_effect(old(config)@, words_view(parts@)).changed,
{
    let sub = parts[1];
    if str_eq(sub, "add") {
        add_rule(config, parts)
    } else if str_eq(sub, "remove") || str_eq(sub, "del") || str_eq(sub, "delete") {
        remove_rule(config, parts)
    } else if str_eq(sub, "list") {
        list_rules(config)
    } else if str_eq(sub, "enable") || str_eq(sub, "on") {
        toggle_rule(config, parts, true)
    } else if str_eq(sub, "disable") || str_eq(sub, "off") {
        toggle_rule(config, parts, false)
    } else {
        CommandOutcome {
            reply: string_of("未知子命令。可用: add, remove, list, enable, disable"),
            changed: false,
        }
    }
}

} // verus!
