//! Dynamic command registry for plugins and extensions.
//!
//! Plugins register commands at run time beside the built-in set; a
//! registered command with the name of an existing one replaces it, so
//! plugins can override built-ins. The palette asks the registry for
//! fuzzy-filtered, context-aware suggestions.

use vstd::prelude::*;
use crate::commands::{get_all_commands, Command, CommandV, Suggestion, SuggestionV};
use crate::keybindings::KeyContext;

verus! {

/// The values of a command sequence.
pub open spec fn cmd_views(s: Seq<Command>) -> Seq<CommandV> {
    Seq::new(s.len(), |i: int| s[i]@)
}

/// The values of a suggestion sequence.
pub open spec fn sugg_views(s: Seq<Suggestion>) -> Seq<SuggestionV> {
    Seq::new(s.len(), |i: int| s[i]@)
}

/// The commands of `s` whose name is not `n`, in order.
pub open spec fn without_name(s: Seq<CommandV>, n: Seq<char>) -> Seq<CommandV>
    decreases s.len(),
{
    if s.len() == 0 {
        Seq::<CommandV>::empty()
    } else if s.last().name == n {
        without_name(s.drop_last(), n)
    } else {
        without_name(s.drop_last(), n).push(s.last())
    }
}

/// Whether `p` is a prefix of `s`.
pub open spec fn has_prefix(s: Seq<char>, p: Seq<char>) -> bool {
    p.len() <= s.len() && s.take(p.len() as int) == p
}

/// The commands of `s` whose name does not begin with `p`, in order.
pub open spec fn without_prefix(s: Seq<CommandV>, p: Seq<char>) -> Seq<CommandV>
    decreases s.len(),
{
    if s.len() == 0 {
        Seq::<CommandV>::empty()
    } else if has_prefix(s.last().name, p) {
        without_prefix(s.drop_last(), p)
    } else {
        without_prefix(s.drop_last(), p).push(s.last())
    }
}

/// The first command of `s` named `n`.
pub open spec fn first_named(s: Seq<CommandV>, n: Seq<char>) -> Option<CommandV>
    decreases s.len(),
{
    if s.len() == 0 {
        Option::<CommandV>::None
    } else if s[0].name == n {
        Some(s[0])
    } else {
        first_named(s.skip(1), n)
    }
}

/// Whether `q` occurs in `s` as a subsequence, characters in order.
pub open spec fn is_subseq(q: Seq<char>, s: Seq<char>) -> bool
    decreases q.len() + s.len(),
{
    if q.len() == 0 {
        true
    } else if s.len() == 0 {
        false
    } else if q[0] == s[0] {
        is_subseq(q.skip(1), s.skip(1))
    } else {
        is_subseq(q, s.skip(1))
    }
}

/// What `str::to_lowercase` returns for a given character sequence.
pub uninterp spec fn lower_of(s: Seq<char>) -> Seq<char>;

/// A command is available in a context when its context list is empty or
/// names that context.
pub open spec fn cmd_available(c: CommandV, ctx: KeyContext) -> bool {
    c.contexts.len() == 0 || c.contexts.contains(ctx)
}

/// A command matches a query when the query is empty or its lowercased
/// characters occur in order in the lowercased command name.
pub open spec fn cmd_matches(c: CommandV, q: Seq<char>) -> bool {
    q.len() == 0 || is_subseq(lower_of(q), lower_of(c.name))
}

/// The suggestion shown for a command in a context.
pub open spec fn suggestion_of(c: CommandV, ctx: KeyContext) -> SuggestionV {
    SuggestionV { text: c.name, description: Some(c.description), disabled: !cmd_available(c, ctx) }
}

/// The suggestions for the commands of `s` matching `q`, keeping order,
/// restricted to the enabled ones (`want_disabled` false) or the disabled
/// ones (`want_disabled` true).
pub open spec fn suggestions_for(
    s: Seq<CommandV>,
    q: Seq<char>,
    ctx: KeyContext,
    want_disabled: bool,
) -> Seq<SuggestionV>
    decreases s.len(),
{
    if s.len() == 0 {
        Seq::<SuggestionV>::empty()
    } else {
        let rest = suggestions_for(s.drop_last(), q, ctx, want_disabled);
        let c = s.last();
        if cmd_matches(c, q) && !cmd_available(c, ctx) == want_disabled {
            rest.push(suggestion_of(c, ctx))
        } else {
            rest
        }
    }
}

pub proof fn lemma_cmd_views_push(s: Seq<Command>, c: Command)
    ensures
        cmd_views(s.push(c)) =~= cmd_views(s).push(c@),
{
    assert forall|t: int| 0 <= t < s.len() + 1 implies cmd_views(s.push(c))[t] == cmd_views(
        s,
    ).push(c@)[t] by {
        assert(cmd_views(s.push(c))[t] == s.push(c)[t]@);
        if t < s.len() {
            assert(s.push(c)[t] == s[t]);
            assert(cmd_views(s)[t] == s[t]@);
        } else {
            assert(s.push(c)[t] == c);
        }
    }
}

pub proof fn lemma_sugg_views_push(s: Seq<Suggestion>, c: Suggestion)
    ensures
        sugg_views(s.push(c)) =~= sugg_views(s).push(c@),
{
    assert forall|t: int| 0 <= t < s.len() + 1 implies sugg_views(s.push(c))[t] == sugg_views(
        s,
    ).push(c@)[t] by {
        assert(sugg_views(s.push(c))[t] == s.push(c)[t]@);
        if t < s.len() {
            assert(s.push(c)[t] == s[t]);
            assert(sugg_views(s)[t] == s[t]@);
        } else {
            assert(s.push(c)[t] == c);
        }
    }
}

/// Relies on str::to_lowercase: the result depends on the characters alone.
#[verifier::external_body]
fn lowercase(s: &str) -> (r: String)
    ensures
        r@ == lower_of(s@),
{
    s.to_lowercase()
}

/// Whether the characters of `a` and `b` are equal.
fn str_eq(a: &str, b: &str) -> (r: bool)
    ensures
        r == (a@ == b@),
{
    let an = a.unicode_len();
    let bn = b.unicode_len();
    if an != bn {
        proof {
            assert(a@ != b@);
        }
        return false;
    }
    let mut i: usize = 0;
    while i < an
        invariant
            an == a@.len(),
            bn == b@.len(),
            an == bn,
            i <= an,
            forall|j: int| 0 <= j < i ==> a@[j] == b@[j],
        decreases an - i,
    {
        if a.get_char(i) != b.get_char(i) {
            proof {
                assert(a@ != b@);
            }
            return false;
        }
        i += 1;
    }
    proof {
        assert(a@ =~= b@);
    }
    true
}

/// Whether the characters of `p` begin the characters of `s`.
fn str_starts_with(s: &str, p: &str) -> (r: bool)
    ensures
        r == has_prefix(s@, p@),
{
    let sn = s.unicode_len();
    let pn = p.unicode_len();
    if pn > sn {
        return false;
    }
    let mut i: usize = 0;
    while i < pn
        invariant
            sn == s@.len(),
            pn == p@.len(),
            pn <= sn,
            i <= pn,
            forall|j: int| 0 <= j < i ==> s@[j] == p@[j],
        decreases pn - i,
    {
        if s.get_char(i) != p.get_char(i) {
            proof {
                assert(s@.take(pn as int)[i as int] != p@[i as int]);
            }
            return false;
        }
        i += 1;
    }
    proof {
        assert(s@.take(pn as int) =~= p@);
    }
    true
}

/// Whether the lowercased query occurs in order in the lowercased name:
/// the fuzzy match of the palette.
fn fuzzy_matches(query_lower: &str, name: &str) -> (r: bool)
    ensures
        r == is_subseq(query_lower@, lower_of(name@)),
{
    let name_lower = lowercase(name);
    let nl = name_lower.as_str();
    let qn = query_lower.unicode_len();
    let nn = nl.unicode_len();
    let mut qi: usize = 0;
    let mut i: usize = 0;
    proof {
        assert(query_lower@.skip(0) =~= query_lower@);
        assert(nl@.skip(0) =~= nl@);
    }
    while i < nn
        invariant
            qn == query_lower@.len(),
            nn == nl@.len(),
            nl@ == lower_of(name@),
            qi <= qn,
            i <= nn,
            is_subseq(query_lower@.skip(qi as int), nl@.skip(i as int)) == is_subseq(
                query_lower@,
                nl@,
            ),
        decreases nn - i,
    {
        if qi < qn && query_lower.get_char(qi) == nl.get_char(i) {
            proof {
                assert(query_lower@.skip(qi as int)[0] == nl@.skip(i as int)[0]);
                assert(query_lower@.skip(qi as int).skip(1) =~= query_lower@.skip(qi as int + 1));
                assert(nl@.skip(i as int).skip(1) =~= nl@.skip(i as int + 1));
            }
            qi += 1;
        } else {
            proof {
                if qi < qn {
                    assert(query_lower@.skip(qi as int)[0] != nl@.skip(i as int)[0]);
                    assert(nl@.skip(i as int).skip(1) =~= nl@.skip(i as int + 1));
                } else {
                    assert(query_lower@.skip(qi as int).len() == 0);
                    assert(is_subseq(query_lower@.skip(qi as int), nl@.skip(i as int)));
                    assert(is_subseq(query_lower@.skip(qi as int), nl@.skip(i as int + 1)));
                }
            }
        }
        i += 1;
    }
    proof {
        assert(nl@.skip(nn as int).len() == 0);
        if qi < qn {
            assert(query_lower@.skip(qi as int).len() > 0);
            assert(!is_subseq(query_lower@.skip(qi as int), nl@.skip(nn as int)));
        } else {
            assert(query_lower@.skip(qi as int).len() == 0);
        }
    }
    qi == qn
}

/// Registry of editor commands: the built-in set, loaded once, plus the
/// plugin-registered commands, added and removed dynamically.
pub struct CommandRegistry {
    pub builtin_commands: Vec<Command>,
    pub plugin_commands: Vec<Command>,
}

impl CommandRegistry {
    /// The values of the built-in commands.
    pub open spec fn builtins(&self) -> Seq<CommandV> {
        cmd_views(self.builtin_commands@)
    }

    /// The values of the plugin commands.
    pub open spec fn plugins(&self) -> Seq<CommandV> {
        cmd_views(self.plugin_commands@)
    }

    /// A fresh registry holding the built-in commands and no plugin
    /// commands.
    pub fn new() -> (r: CommandRegistry)
        ensures
            r.plugins().len() == 0,
            r.builtins().len() >= 1,
    {
        CommandRegistry { builtin_commands: get_all_commands(), plugin_commands: Vec::new() }
    }

    /// Register a command: any plugin command of the same name is removed,
    /// then the command is appended, so that it overrides built-ins and
    /// earlier registrations with its name.
    pub fn register(&mut self, command: Command)
        ensures
            final(self).builtins() == old(self).builtins(),
            final(self).plugins() == without_name(old(self).plugins(), command@.name).push(
                command@,
            ),
    {
        let ghost p0 = self.plugins();
        let ghost n = command@.name;
        let mut kept: Vec<Command> = Vec::new();
        let mut i: usize = 0;
        while i < self.plugin_commands.len()
            invariant
                n == command@.name,
                p0 == cmd_views(self.plugin_commands@),
                i <= self.plugin_commands@.len(),
                cmd_views(kept@) == without_name(p0.take(i as int), n),
            decreases self.plugin_commands@.len() - i,
        {
            let keep = !str_eq(self.plugin_commands[i].name.as_str(), command.name.as_str());
            proof {
                assert(p0.take(i as int + 1).drop_last() =~= p0.take(i as int));
                assert(p0.take(i as int + 1).last() == p0[i as int]);
                assert(p0[i as int] == self.plugin_commands@[i as int]@);
            }
            if keep {
                let c = self.plugin_commands[i].duplicate();
                kept.push(c);
                proof {
                    assert(cmd_views(kept@) =~= without_name(p0.take(i as int + 1), n));
                }
            } else {
                proof {
                    assert(cmd_views(kept@) =~= without_name(p0.take(i as int + 1), n));
                }
            }
            i += 1;
        }
        proof {
            assert(p0.take(p0.len() as int) =~= p0);
        }
        kept.push(command);
        self.plugin_commands = kept;
        proof {
            assert(final(self).plugins() =~= without_name(p0, n).push(
                final(self).plugins().last(),
            ));
        }
    }

    /// Unregister every plugin command with this exact name.
    pub fn unregister(&mut self, name: &str)
        ensures
            final(self).builtins() == old(self).builtins(),
            final(self).plugins() == without_name(old(self).plugins(), name@),
    {
        let ghost p0 = self.plugins();
        let mut kept: Vec<Command> = Vec::new();
        let mut i: usize = 0;
        while i < self.plugin_commands.len()
            invariant
                p0 == cmd_views(self.plugin_commands@),
                i <= self.plugin_commands@.len(),
                cmd_views(kept@) == without_name(p0.take(i as int), name@),
            decreases self.plugin_commands@.len() - i,
        {
            let keep = !str_eq(self.plugin_commands[i].name.as_str(), name);
            proof {
                assert(p0.take(i as int + 1).drop_last() =~= p0.take(i as int));
                assert(p0.take(i as int + 1).last() == p0[i as int]);
                assert(p0[i as int] == self.plugin_commands@[i as int]@);
            }
            if keep {
                let c = self.plugin_commands[i].duplicate();
                kept.push(c);
            }
            proof {
                assert(cmd_views(kept@) =~= without_name(p0.take(i as int + 1), name@));
            }
            i += 1;
        }
        proof {
            assert(p0.take(p0.len() as int) =~= p0);
        }
        self.plugin_commands = kept;
    }

    /// Unregister every plugin command whose name begins with this prefix
    /// (typically a plugin's namespace).
    pub fn unregister_by_prefix(&mut self, prefix: &str)
        ensures
            final(self).builtins() == old(self).builtins(),
            final(self).plugins() == without_prefix(old(self).plugins(), prefix@),
    {
        let ghost p0 = self.plugins();
        let mut kept: Vec<Command> = Vec::new();
        let mut i: usize = 0;
        while i < self.plugin_commands.len()
            invariant
                p0 == cmd_views(self.plugin_commands@),
                i <= self.plugin_commands@.len(),
                cmd_views(kept@) == without_prefix(p0.take(i as int), prefix@),
            decreases self.plugin_commands@.len() - i,
        {
            let keep = !str_starts_with(self.plugin_commands[i].name.as_str(), prefix);
            proof {
                assert(p0.take(i as int + 1).drop_last() =~= p0.take(i as int));
                assert(p0.take(i as int + 1).last() == p0[i as int]);
                assert(p0[i as int] == self.plugin_commands@[i as int]@);
            }
            if keep {
                let c = self.plugin_commands[i].duplicate();
                kept.push(c);
            }
            proof {
                assert(cmd_views(kept@) =~= without_prefix(p0.take(i as int + 1), prefix@));
            }
            i += 1;
        }
        proof {
            assert(p0.take(p0.len() as int) =~= p0);
        }
        self.plugin_commands = kept;
    }

    /// All commands: the built-ins followed by the plugin commands.
    pub fn get_all(&self) -> (r: Vec<Command>)
        ensures
            cmd_views(r@) == self.builtins() + self.plugins(),
    {
        let mut all: Vec<Command> = Vec::new();
        let mut i: usize = 0;
        while i < self.builtin_commands.len()
            invariant
                i <= self.builtin_commands@.len(),
                cmd_views(all@) == self.builtins().take(i as int),
            decreases self.builtin_commands@.len() - i,
        {
            let c = self.builtin_commands[i].duplicate();
            let ghost ap = all@;
            all.push(c);
            proof {
                lemma_cmd_views_push(ap, c);
                assert(c@ == self.builtins()[i as int]);
                assert(self.builtins().take(i as int + 1) =~= self.builtins().take(i as int).push(
                    self.builtins()[i as int],
                ));
                assert(cmd_views(all@) =~= self.builtins().take(i as int + 1));
            }
            i += 1;
        }
        let mut j: usize = 0;
        while j < self.plugin_commands.len()
            invariant
                j <= self.plugin_commands@.len(),
                cmd_views(all@) == self.builtins().take(self.builtins().len() as int)
                    + self.plugins().take(j as int),
            decreases self.plugin_commands@.len() - j,
        {
            let c = self.plugin_commands[j].duplicate();
            let ghost ap = all@;
            all.push(c);
            proof {
                lemma_cmd_views_push(ap, c);
                assert(c@ == self.plugins()[j as int]);
                assert(self.plugins().take(j as int + 1) =~= self.plugins().take(j as int).push(
                    self.plugins()[j as int],
                ));
                assert(cmd_views(all@) =~= self.builtins().take(self.builtins().len() as int)
                    + self.plugins().take(j as int + 1));
            }
            j += 1;
        }
        proof {
            assert(self.builtins().take(self.builtins().len() as int) =~= self.builtins());
            assert(self.plugins().take(self.plugins().len() as int) =~= self.plugins());
            assert(cmd_views(all@) =~= self.builtins() + self.plugins());
        }
        all
    }

    /// Filter all commands by fuzzy match against the query and convert
    /// them to suggestions: the ones enabled in the current context first,
    /// the disabled ones after them, order otherwise kept.
    #[verifier::rlimit(50)]
    pub fn filter(&self, query: &str, current_context: KeyContext) -> (r: Vec<Suggestion>)
        ensures
            sugg_views(r@) == suggestions_for(
                self.builtins() + self.plugins(),
                query@,
                current_context,
                false,
            ) + suggestions_for(
                self.builtins() + self.plugins(),
                query@,
                current_context,
                true,
            ),
    {
        let ghost all_v = self.builtins() + self.plugins();
        let query_lower = lowercase(query);
        let empty_query = query.unicode_len() == 0;
        let commands = self.get_all();
        let mut enabled: Vec<Suggestion> = Vec::new();
        let mut disabled: Vec<Suggestion> = Vec::new();
        let mut i: usize = 0;
        while i < commands.len()
            invariant
                all_v == cmd_views(commands@),
                query_lower@ == lower_of(query@),
                empty_query == (query@.len() == 0),
                i <= commands@.len(),
                sugg_views(enabled@) == suggestions_for(
                    all_v.take(i as int),
                    query@,
                    current_context,
                    false,
                ),
                sugg_views(disabled@) == suggestions_for(
                    all_v.take(i as int),
                    query@,
                    current_context,
                    true,
                ),
            decreases commands@.len() - i,
        {
            let cmd = &commands[i];
            let matched = if empty_query {
                true
            } else {
                fuzzy_matches(query_lower.as_str(), cmd.name.as_str())
            };
            proof {
                assert(all_v.take(i as int + 1).drop_last() =~= all_v.take(i as int));
                assert(all_v.take(i as int + 1).last() == all_v[i as int]);
                assert(all_v[i as int] == commands@[i as int]@);
                assert(matched == cmd_matches(commands@[i as int]@, query@));
            }
            if matched {
                let available = Self::is_available(cmd, current_context);
                let s = Suggestion::with_description_and_disabled(
                    cmd.name.clone(),
                    cmd.description.clone(),
                    !available,
                );
                proof {
                    assert(s@ == suggestion_of(commands@[i as int]@, current_context));
                }
                if available {
                    enabled.push(s);
                } else {
                    disabled.push(s);
                }
            }
            proof {
                assert(sugg_views(enabled@) =~= suggestions_for(
                    all_v.take(i as int + 1),
                    query@,
                    current_context,
                    false,
                ));
                assert(sugg_views(disabled@) =~= suggestions_for(
                    all_v.take(i as int + 1),
                    query@,
                    current_context,
                    true,
                ));
            }
            i += 1;
        }
        proof {
            assert(all_v.take(all_v.len() as int) =~= all_v);
        }
        let mut j: usize = 0;
        let ghost en = sugg_views(enabled@);
        let ghost dis = sugg_views(disabled@);
        while j < disabled.len()
            invariant
                j <= disabled@.len(),
                dis.len() == disabled@.len(),
                forall|t: int| 0 <= t < disabled@.len() ==> (#[trigger] disabled@[t])@ == dis[t],
                sugg_views(enabled@) == en + dis.take(j as int),
            decreases disabled@.len() - j,
        {
            let s = disabled[j].duplicate();
            proof {
                assert(s@ == disabled@[j as int]@);
                assert(s@ == dis[j as int]);
            }
            let ghost ep = enabled@;
            enabled.push(s);
            proof {
                lemma_sugg_views_push(ep, s);
                assert(dis.take(j as int + 1) =~= dis.take(j as int).push(dis[j as int]));
                assert(sugg_views(enabled@) =~= en + dis.take(j as int + 1));
            }
            j += 1;
        }
        proof {
            assert(dis.take(dis.len() as int) =~= dis);
        }
        enabled
    }

    /// Whether a command is available in the given context.
    fn is_available(cmd: &Command, ctx: KeyContext) -> (r: bool)
        ensures
            r == cmd_available(cmd@, ctx),
    {
        if cmd.contexts.len() == 0 {
            return true;
        }
        let mut i: usize = 0;
        while i < cmd.contexts.len()
            invariant
                i <= cmd.contexts@.len(),
                forall|t: int| 0 <= t < i ==> cmd.contexts@[t] != ctx,
            decreases cmd.contexts@.len() - i,
        {
            if cmd.contexts[i] == ctx {
                return true;
            }
            i += 1;
        }
        proof {
            assert(!cmd.contexts@.contains(ctx));
        }
        false
    }

    /// How many plugin commands are registered.
    pub fn plugin_command_count(&self) -> (r: usize)
        ensures
            r == self.plugins().len(),
    {
        self.plugin_commands.len()
    }

    /// How many commands there are in all, built-in and plugin.
    pub fn total_command_count(&self) -> (r: usize)
        requires
            self.builtins().len() + self.plugins().len() <= usize::MAX,
        ensures
            r == self.builtins().len() + self.plugins().len(),
    {
        self.builtin_commands.len() + self.plugin_commands.len()
    }

    /// Find a command by exact name, plugin commands first so that they
    /// override built-ins of the same name.
    pub fn find_by_name(&self, name: &str) -> (r: Option<Command>)
        ensures
            match r {
                Some(c) => {
                    &&& c@.name == name@
                    &&& match first_named(self.plugins(), name@) {
                        Some(v) => c@ == v,
                        None => first_named(self.builtins(), name@) == Some(c@),
                    }
                },
                None => first_named(self.plugins(), name@) is None && first_named(
                    self.builtins(),
                    name@,
                ) is None,
            },
    {
        let ghost pv = self.plugins();
        let ghost bv = self.builtins();
        proof {
            assert(pv.skip(0) =~= pv);
        }
        let mut i: usize = 0;
        while i < self.plugin_commands.len()
            invariant
                pv == cmd_views(self.plugin_commands@),
                i <= self.plugin_commands@.len(),
                first_named(pv.skip(i as int), name@) == first_named(pv, name@),
            decreases self.plugin_commands@.len() - i,
        {
            let hit = str_eq(self.plugin_commands[i].name.as_str(), name);
            proof {
                assert(pv.skip(i as int)[0] == pv[i as int]);
                assert(pv[i as int] == self.plugin_commands@[i as int]@);
                assert(pv.skip(i as int).skip(1) =~= pv.skip(i as int + 1));
            }
            if hit {
                proof {
                    assert(pv[i as int].name == name@);
                    assert(first_named(pv.skip(i as int), name@) == Some(pv[i as int]));
                }
                let c = self.plugin_commands[i].duplicate();
                proof {
                    assert(c@ == pv[i as int]);
                }
                return Some(c);
            }
            i += 1;
        }
        proof {
            assert(pv.skip(pv.len() as int).len() == 0);
            assert(first_named(pv, name@) is None);
            assert(bv.skip(0) =~= bv);
        }
        let mut j: usize = 0;
        while j < self.builtin_commands.len()
            invariant
                first_named(pv, name@) is None,
                pv == cmd_views(self.plugin_commands@),
                bv == cmd_views(self.builtin_commands@),
                j <= self.builtin_commands@.len(),
                first_named(bv.skip(j as int), name@) == first_named(bv, name@),
            decreases self.builtin_commands@.len() - j,
        {
            let hit = str_eq(self.builtin_commands[j].name.as_str(), name);
            proof {
                assert(bv.skip(j as int)[0] == bv[j as int]);
                assert(bv[j as int] == self.builtin_commands@[j as int]@);
                assert(bv.skip(j as int).skip(1) =~= bv.skip(j as int + 1));
            }
            if hit {
                proof {
                    assert(bv[j as int].name == name@);
                    assert(first_named(bv.skip(j as int), name@) == Some(bv[j as int]));
                }
                let c = self.builtin_commands[j].duplicate();
                proof {
                    assert(c@ == bv[j as int]);
                }
                return Some(c);
            }
            j += 1;
        }
        proof {
            assert(bv.skip(bv.len() as int).len() == 0);
            assert(first_named(bv, name@) is None);
        }
        None
    }
}

impl Default for CommandRegistry {
    /// The default registry is the fresh one.
    fn default() -> (r: CommandRegistry)
        ensures
            r.plugins().len() == 0,
            r.builtins().len() >= 1,
    {
        CommandRegistry::new()
    }
}

} // verus!
