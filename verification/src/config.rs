//! The forwarding rules and their stored configuration.
use vstd::prelude::*;

verus! {

/// Where a forwarded message comes from.
#[derive(Clone, Copy, Debug, PartialEq, Eq, Structural)]
pub enum Source {
    /// Private messages from the given QQ account.
    Private { qq: i64 },
    /// Every message of the given group.
    Group { group_id: i64 },
    /// Messages of the given account inside the given group.
    GroupUser { group_id: i64, qq: i64 },
}

/// Where a forwarded message goes.
#[derive(Clone, Copy, Debug, PartialEq, Eq, Structural)]
pub enum Target {
    /// A private message to the given QQ account.
    Private { qq: i64 },
    /// A message to the given group.
    Group { group_id: i64 },
}

/// One forwarding rule.
#[derive(Clone, Debug)]
pub struct TransferRule {
    pub enabled: bool,
    pub name: String,
    pub source: Source,
    pub target: Target,
}

/// The mathematical content of a rule.
pub struct RuleView {
    pub enabled: bool,
    pub name: Seq<char>,
    pub source: Source,
    pub target: Target,
}

impl View for TransferRule {
    type V = RuleView;

    open spec fn view(&self) -> RuleView {
        RuleView {
            enabled: self.enabled,
            name: self.name@,
            source: self.source,
            target: self.target,
        }
    }
}

/// The views of a list of rules.
pub open spec fn rules_view(rules: Seq<TransferRule>) -> Seq<RuleView> {
    rules.map_values(|r: TransferRule| r@)
}

/// The stored list of rules, in the order in which they were added.
#[derive(Clone, Debug)]
pub struct TransferConfig {
    pub rules: Vec<TransferRule>,
}

impl View for TransferConfig {
    type V = Seq<RuleView>;

    open spec fn view(&self) -> Seq<RuleView> {
        rules_view(self.rules@)
    }
}

/// Value of `enabled` for a stored rule that does not say.
pub fn default_true() -> (r: bool)
    ensures
        r == true,
{
    true
}

impl Default for TransferConfig {
    /// A configuration with no rules.
    fn default() -> (r: Self)
        ensures
            r@ == Seq::<RuleView>::empty(),
    {
        let r = TransferConfig { rules: Vec::new() };
        assert(r@ =~= Seq::<RuleView>::empty());
        r
    }
}

} // verus!
