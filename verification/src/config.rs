//! The watchdog's configuration: rules as written, and their defaults.

use crate::text::texts;
use vstd::prelude::*;

verus! {

/// Where a rule's pattern is applied within the pane tail.
#[derive(Debug, Clone, Copy, PartialEq, Eq, Structural)]
pub enum RuleScope {
    /// Match each non-empty line of the tail window individually.
    Line,
    /// Match once against the tail window joined with newlines (for
    /// multi-line prompts like device-code sign-in blocks).
    Window,
}

impl Default for RuleScope {
    fn default() -> (r: Self)
        ensures
            r == RuleScope::Line,
    {
        RuleScope::Line
    }
}

/// How many lines a rule looks at unless it says otherwise.
pub fn default_tail_lines() -> (r: usize)
    ensures
        r == 15,
{
    15
}

/// What `strip_decoration` and `enabled` are unless a rule says otherwise.
pub fn default_true() -> (r: bool)
    ensures
        r,
{
    true
}

/// Seconds between two firings of a rule for one session unless it says
/// otherwise: half an hour.
pub fn default_cooldown_secs() -> (r: u64)
    ensures
        r == 30 * 60,
{
    30 * 60
}

/// One declarative pane-text rule, as written in config.
#[derive(Debug, Clone)]
pub struct PaneRuleConfig {
    /// Unique-ish label used in logs and exported to the rule command as
    /// `AOE_RULE_NAME`.
    pub name: String,
    /// Free-form category label ("cap", "auth", ...), exported to the rule
    /// command as `AOE_RULE_KIND`.
    pub kind: String,
    /// Regex tried against each line ([`RuleScope::Line`]) or the joined
    /// tail window ([`RuleScope::Window`]). Case-sensitive unless the
    /// pattern opts into `(?i)`.
    pub pattern: String,
    /// Negative-guard regexes: text they match can never fire this rule
    /// (applied to the raw line or window before the pattern).
    pub negative: Vec<String>,
    /// How many non-empty lines from the live edge of the pane are in
    /// scope. Small windows keep stale scrollback (a finished sign-in
    /// flow, a recovered error) from firing.
    pub tail_lines: usize,
    pub scope: RuleScope,
    /// Strip leading decoration (selector glyphs, bullets) and a `1.` or
    /// `2)` option enumerator from each line before matching, so anchored
    /// patterns survive TUI chrome. Line scope only.
    pub strip_decoration: bool,
    /// Evaluation order: lower fires first when several rules match.
    pub priority: u32,
    pub enabled: bool,
    /// Shell command run when the rule matches, with `AOE_RULE_NAME`,
    /// `AOE_RULE_KIND`, `AOE_SESSION_ID`, `AOE_SESSION_TITLE` and
    /// `AOE_SESSION_PROFILE` in its environment. Omit to only log matches.
    pub command: Option<String>,
    /// Floor in seconds between firings of this rule for the same session,
    /// so a pane that stays blocked does not run the command every tick.
    pub cooldown_secs: u64,
}

/// What a rule says, as plain values.
pub struct RuleConfigView {
    pub name: Seq<char>,
    pub kind: Seq<char>,
    pub pattern: Seq<char>,
    pub negative: Seq<Seq<char>>,
    pub tail_lines: usize,
    pub scope: RuleScope,
    pub strip_decoration: bool,
    pub priority: u32,
    pub enabled: bool,
    pub command: Option<Seq<char>>,
    pub cooldown_secs: u64,
}

/// The contents of a string that may be missing.
pub open spec fn text_if_any(s: Option<String>) -> Option<Seq<char>> {
    match s {
        Some(t) => Some(t@),
        None => None,
    }
}

impl View for PaneRuleConfig {
    type V = RuleConfigView;

    open spec fn view(&self) -> RuleConfigView {
        RuleConfigView {
            name: self.name@,
            kind: self.kind@,
            pattern: self.pattern@,
            negative: texts(self.negative@),
            tail_lines: self.tail_lines,
            scope: self.scope,
            strip_decoration: self.strip_decoration,
            priority: self.priority,
            enabled: self.enabled,
            command: text_if_any(self.command),
            cooldown_secs: self.cooldown_secs,
        }
    }
}

/// What a list of rules says.
pub open spec fn configs(rules: Seq<PaneRuleConfig>) -> Seq<RuleConfigView> {
    Seq::new(rules.len(), |i: int| rules[i]@)
}

/// Watchdog section of the user config (`[watchdog]`).
#[derive(Debug, Clone)]
pub struct WatchdogConfig {
    /// Disable the pane watchdog without deleting the rules.
    pub disabled: bool,
    /// Scan interval in seconds (minimum 10; default 180).
    pub interval_secs: Option<u64>,
    pub rules: Vec<PaneRuleConfig>,
}

impl Default for WatchdogConfig {
    fn default() -> (r: Self)
        ensures
            !r.disabled,
            r.interval_secs is None,
            r.rules@.len() == 0,
    {
        WatchdogConfig { disabled: false, interval_secs: None, rules: Vec::new() }
    }
}

/// A rule as a config file holds it: whatever is not required may be left
/// out.
#[derive(Debug, Clone)]
pub struct PaneRuleFields {
    pub name: String,
    pub kind: Option<String>,
    pub pattern: String,
    pub negative: Option<Vec<String>>,
    pub tail_lines: Option<usize>,
    pub scope: Option<RuleScope>,
    pub strip_decoration: Option<bool>,
    pub priority: Option<u32>,
    pub enabled: Option<bool>,
    pub command: Option<String>,
    pub cooldown_secs: Option<u64>,
}

/// A value, or what takes its place where it was left out.
pub open spec fn value_or<T>(value: Option<T>, other: T) -> T {
    match value {
        Some(v) => v,
        None => other,
    }
}

/// The rule that a set of fields stands for: what was left out takes its
/// default.
pub open spec fn with_defaults(fields: PaneRuleFields) -> RuleConfigView {
    RuleConfigView {
        name: fields.name@,
        kind: match fields.kind {
            Some(kind) => kind@,
            None => Seq::empty(),
        },
        pattern: fields.pattern@,
        negative: match fields.negative {
            Some(negative) => texts(negative@),
            None => Seq::empty(),
        },
        tail_lines: value_or(fields.tail_lines, 15),
        scope: value_or(fields.scope, RuleScope::Line),
        strip_decoration: value_or(fields.strip_decoration, true),
        priority: value_or(fields.priority, 0),
        enabled: value_or(fields.enabled, true),
        command: text_if_any(fields.command),
        cooldown_secs: value_or(fields.cooldown_secs, 1800),
    }
}

/// Whether fields spell out a rule: all of them are there, except that an
/// empty guard list and a missing command are left out.
pub open spec fn written(fields: PaneRuleFields, rule: RuleConfigView) -> bool {
    &&& fields.name@ == rule.name
    &&& text_if_any(fields.kind) == Some(rule.kind)
    &&& fields.pattern@ == rule.pattern
    &&& match fields.negative {
        Some(negative) => negative@.len() > 0 && texts(negative@) == rule.negative,
        None => rule.negative.len() == 0,
    }
    &&& fields.tail_lines == Some(rule.tail_lines)
    &&& fields.scope == Some(rule.scope)
    &&& fields.strip_decoration == Some(rule.strip_decoration)
    &&& fields.priority == Some(rule.priority)
    &&& fields.enabled == Some(rule.enabled)
    &&& text_if_any(fields.command) == rule.command
    &&& fields.cooldown_secs == Some(rule.cooldown_secs)
}

/// Nothing of an optional text is lost in its contents.
pub proof fn optional_text_is_whole(s: Option<String>)
    ensures
        text_if_any(s) is Some <==> s is Some,
        s matches Some(t) ==> text_if_any(s) == Some(t@),
{
}

/// The view of a rule tells each field as it stands.
pub proof fn rule_view_tells_each_field(rule: PaneRuleConfig)
    ensures
        rule@.name == rule.name@,
        rule@.kind == rule.kind@,
        rule@.pattern == rule.pattern@,
        rule@.negative.len() == rule.negative@.len(),
        forall|g: int|
            0 <= g < rule.negative@.len() ==> #[trigger] rule@.negative[g] == rule.negative@[g]@,
        rule@.tail_lines == rule.tail_lines,
        rule@.scope == rule.scope,
        rule@.strip_decoration == rule.strip_decoration,
        rule@.priority == rule.priority,
        rule@.enabled == rule.enabled,
        rule@.command is Some <==> rule.command is Some,
        rule.command matches Some(command) ==> rule@.command == Some(command@),
        rule@.cooldown_secs == rule.cooldown_secs,
{
}

/// What a config file says of a rule is taken as it stands, whatever else it
/// says or leaves out.
pub proof fn given_fields_are_kept(fields: PaneRuleFields, rule: PaneRuleConfig)
    requires
        rule@ == with_defaults(fields),
    ensures
        rule.name@ == fields.name@,
        fields.kind matches Some(kind) ==> rule.kind@ == kind@,
        rule.pattern@ == fields.pattern@,
        fields.negative matches Some(negative) ==> {
            &&& rule.negative@.len() == negative@.len()
            &&& forall|g: int|
                0 <= g < negative@.len() ==> (#[trigger] rule.negative@[g])@ == negative@[g]@
        },
        fields.tail_lines matches Some(n) ==> rule.tail_lines == n,
        fields.scope matches Some(scope) ==> rule.scope == scope,
        fields.strip_decoration matches Some(strip) ==> rule.strip_decoration == strip,
        fields.priority matches Some(n) ==> rule.priority == n,
        fields.enabled matches Some(enabled) ==> rule.enabled == enabled,
        rule.command is Some <==> fields.command is Some,
        fields.command matches Some(command) ==> rule.command->0@ == command@,
        fields.cooldown_secs matches Some(n) ==> rule.cooldown_secs == n,
{
    if let Some(negative) = fields.negative {
        assert(texts(rule.negative@) == texts(negative@));
        assert(texts(rule.negative@).len() == rule.negative@.len());
        assert forall|g: int| 0 <= g < negative@.len() implies (#[trigger] rule.negative@[g])@
            == negative@[g]@ by {
            assert(texts(rule.negative@)[g] == texts(negative@)[g]);
        }
    }
}

/// What a config file leaves out of a rule takes the documented default: no
/// kind, no guards, 15 lines, line scope, decoration stripped, priority 0,
/// enabled, no command, and half an hour of cooldown.
pub proof fn missing_fields_take_their_defaults(fields: PaneRuleFields, rule: PaneRuleConfig)
    requires
        rule@ == with_defaults(fields),
    ensures
        fields.kind is None ==> rule.kind@.len() == 0,
        fields.negative is None ==> rule.negative@.len() == 0,
        fields.tail_lines is None ==> rule.tail_lines == 15,
        fields.scope is None ==> rule.scope == RuleScope::Line,
        fields.strip_decoration is None ==> rule.strip_decoration,
        fields.priority is None ==> rule.priority == 0,
        fields.enabled is None ==> rule.enabled,
        fields.command is None ==> rule.command is None,
        fields.cooldown_secs is None ==> rule.cooldown_secs == 1800,
{
    assert(texts(rule.negative@).len() == rule.negative@.len());
}

/// A rule that is written out is written whole: each field holds the rule's
/// own value, and only an empty guard list and a missing command are left
/// out.
pub proof fn written_rule_is_whole(fields: PaneRuleFields, rule: PaneRuleConfig)
    requires
        written(fields, rule@),
    ensures
        fields.name@ == rule.name@,
        fields.kind matches Some(kind) && kind@ == rule.kind@,
        fields.pattern@ == rule.pattern@,
        fields.negative is None <==> rule.negative@.len() == 0,
        fields.negative matches Some(negative) ==> {
            &&& negative@.len() == rule.negative@.len()
            &&& forall|g: int|
                0 <= g < negative@.len() ==> (#[trigger] negative@[g])@ == rule.negative@[g]@
        },
        fields.tail_lines == Some(rule.tail_lines),
        fields.scope == Some(rule.scope),
        fields.strip_decoration == Some(rule.strip_decoration),
        fields.priority == Some(rule.priority),
        fields.enabled == Some(rule.enabled),
        fields.command is Some <==> rule.command is Some,
        fields.command matches Some(command) ==> command@ == rule.command->0@,
        fields.cooldown_secs == Some(rule.cooldown_secs),
{
    assert(texts(rule.negative@).len() == rule.negative@.len());
    if let Some(negative) = fields.negative {
        assert(texts(negative@).len() == negative@.len());
        assert forall|g: int| 0 <= g < negative@.len() implies (#[trigger] negative@[g])@
            == rule.negative@[g]@ by {
            assert(texts(negative@)[g] == texts(rule.negative@)[g]);
        }
    }
}

/// Every rule of a config file is read, in order, each by itself.
pub proof fn every_rule_is_read(fields: Option<Vec<PaneRuleFields>>, rules: Seq<PaneRuleConfig>)
    requires
        configs(rules) == rules_or_none(fields),
    ensures
        fields is None ==> rules.len() == 0,
        fields matches Some(list) ==> {
            &&& rules.len() == list@.len()
            &&& forall|i: int|
                0 <= i < rules.len() ==> (#[trigger] rules[i])@ == with_defaults(list@[i])
        },
{
    assert(configs(rules).len() == rules.len());
    assert forall|i: int| 0 <= i < rules.len() implies (#[trigger] rules[i])@ == configs(
        rules,
    )[i] by {}
}

/// A copy of a list of strings.
fn copy_texts(v: &Vec<String>) -> (r: Vec<String>)
    ensures
        texts(r@) == texts(v@),
{
    let mut out: Vec<String> = Vec::new();
    let mut i: usize = 0;
    while i < v.len()
        invariant
            i <= v@.len(),
            out@.len() == i,
            forall|j: int| 0 <= j < i ==> out@[j]@ == v@[j]@,
        decreases v@.len() - i,
    {
        out.push(v[i].clone());
        i = i + 1;
    }
    assert(texts(out@) == texts(v@));
    out
}

/// A copy of a string that may be missing.
pub fn copy_if_any(s: &Option<String>) -> (r: Option<String>)
    ensures
        text_if_any(r) == text_if_any(*s),
{
    match s {
        Some(t) => Some(t.clone()),
        None => None,
    }
}

impl PaneRuleConfig {
    /// Fills in the defaults of what a config file left out.
    pub fn from_fields(fields: PaneRuleFields) -> (r: Self)
        ensures
            r@ == with_defaults(fields),
    {
        let kind = match fields.kind {
            Some(kind) => kind,
            None => String::new(),
        };
        let negative = match fields.negative {
            Some(negative) => negative,
            None => Vec::new(),
        };
        let r = PaneRuleConfig {
            name: fields.name,
            kind,
            pattern: fields.pattern,
            negative,
            tail_lines: fields.tail_lines.unwrap_or(default_tail_lines()),
            scope: fields.scope.unwrap_or(RuleScope::default()),
            strip_decoration: fields.strip_decoration.unwrap_or(default_true()),
            priority: fields.priority.unwrap_or(0),
            enabled: fields.enabled.unwrap_or(default_true()),
            command: fields.command,
            cooldown_secs: fields.cooldown_secs.unwrap_or(default_cooldown_secs()),
        };
        assert(r@.negative == with_defaults(fields).negative);
        r
    }

    /// The fields to write to a config file: all of them, except that an
    /// empty guard list and a missing command are left out.
    pub fn to_fields(&self) -> (r: PaneRuleFields)
        ensures
            written(r, self@),
            with_defaults(r) == self@,
    {
        let negative = if self.negative.len() == 0 {
            None
        } else {
            Some(copy_texts(&self.negative))
        };
        let r = PaneRuleFields {
            name: self.name.clone(),
            kind: Some(self.kind.clone()),
            pattern: self.pattern.clone(),
            negative,
            tail_lines: Some(self.tail_lines),
            scope: Some(self.scope),
            strip_decoration: Some(self.strip_decoration),
            priority: Some(self.priority),
            enabled: Some(self.enabled),
            command: copy_if_any(&self.command),
            cooldown_secs: Some(self.cooldown_secs),
        };
        assert(with_defaults(r).negative == self@.negative);
        r
    }
}

/// The watchdog section as a config file holds it.
#[derive(Debug, Clone)]
pub struct WatchdogFields {
    pub disabled: Option<bool>,
    pub interval_secs: Option<u64>,
    pub rules: Option<Vec<PaneRuleFields>>,
}

/// The rules that a list of fields stands for.
pub open spec fn all_with_defaults(fields: Seq<PaneRuleFields>) -> Seq<RuleConfigView> {
    Seq::new(fields.len(), |i: int| with_defaults(fields[i]))
}

/// The rules that an optional list of fields stands for.
pub open spec fn rules_or_none(fields: Option<Vec<PaneRuleFields>>) -> Seq<RuleConfigView> {
    match fields {
        Some(list) => all_with_defaults(list@),
        None => Seq::empty(),
    }
}

impl WatchdogConfig {
    /// Fills in the defaults of what a config file left out.
    pub fn from_fields(fields: WatchdogFields) -> (r: Self)
        ensures
            r.disabled == value_or(fields.disabled, false),
            r.interval_secs == fields.interval_secs,
            configs(r.rules@) == rules_or_none(fields.rules),
    {
        let mut rules: Vec<PaneRuleConfig> = Vec::new();
        if let Some(list) = fields.rules {
            let ghost all = list@;
            for rule in it: list
                invariant
                    it.seq() == all,
                    configs(rules@) == all_with_defaults(all.take(it.index())),
            {
                let ghost n = it.index();
                let ghost so_far = rules@;
                rules.push(PaneRuleConfig::from_fields(rule));
                assert(configs(rules@) == configs(so_far).push(with_defaults(all[n])));
                assert(all_with_defaults(all.take(n + 1)) == all_with_defaults(all.take(n)).push(
                    with_defaults(all[n]),
                ));
            }
            assert(all.take(all.len() as int) == all);
        }
        assert(configs(rules@) == rules_or_none(fields.rules));
        WatchdogConfig {
            disabled: fields.disabled.unwrap_or(false),
            interval_secs: fields.interval_secs,
            rules,
        }
    }

    /// The fields to write to a config file: a missing interval and an
    /// empty rule list are left out, and each rule is spelled out. Read back,
    /// they give the same section.
    pub fn to_fields(&self) -> (r: WatchdogFields)
        ensures
            r.disabled == Some(self.disabled),
            r.interval_secs == self.interval_secs,
            r.rules is None <==> self.rules@.len() == 0,
            r.rules matches Some(list) ==> {
                &&& list@.len() == self.rules@.len()
                &&& forall|j: int|
                    0 <= j < list@.len() ==> written(#[trigger] list@[j], self.rules@[j]@)
            },
            rules_or_none(r.rules) == configs(self.rules@),
    {
        if self.rules.len() == 0 {
            assert(configs(self.rules@) == Seq::<RuleConfigView>::empty());
            return WatchdogFields {
                disabled: Some(self.disabled),
                interval_secs: self.interval_secs,
                rules: None,
            };
        }
        let mut list: Vec<PaneRuleFields> = Vec::new();
        let mut i: usize = 0;
        while i < self.rules.len()
            invariant
                i <= self.rules@.len(),
                list@.len() == i,
                forall|j: int|
                    0 <= j < i ==> with_defaults(#[trigger] list@[j]) == self.rules@[j]@,
                forall|j: int| 0 <= j < i ==> written(#[trigger] list@[j], self.rules@[j]@),
            decreases self.rules@.len() - i,
        {
            list.push(self.rules[i].to_fields());
            i = i + 1;
        }
        assert(all_with_defaults(list@) == configs(self.rules@));
        WatchdogFields {
            disabled: Some(self.disabled),
            interval_secs: self.interval_secs,
            rules: Some(list),
        }
    }
}

} // verus!
