use vstd::prelude::*;
use vstd::string::StrSliceExecFns;

verus! {

#[verifier::external_type_specification]
#[verifier::external_body]
pub struct ExRegex(regex::Regex);

/// Whether `pattern` is a regular expression that compiles.
pub uninterp spec fn regex_is_valid(pattern: Seq<char>) -> bool;

/// Whether the regular expression `pattern` matches somewhere in `text`.
pub uninterp spec fn regex_matches(pattern: Seq<char>, text: Seq<char>) -> bool;

/// Relies on `regex::Regex::new`: whether it succeeds depends on the pattern
/// alone.
#[verifier::external_body]
fn compile_regex(pattern: &str) -> (r: Option<regex::Regex>)
    ensures
        r.is_some() == regex_is_valid(pattern@),
{
    regex::Regex::new(pattern).ok()
}

/// Relies on `regex::Regex::is_match`, on a regex that `Rule::new` compiled
/// from `rule.pattern` (the only way a `Rule` is made): whether it matches
/// depends on the pattern and the text alone.
#[verifier::external_body]
fn rule_is_match(rule: &Rule, text: &str) -> (r: bool)
    ensures
        r == regex_matches(rule@, text@),
{
    rule.regex.is_match(text)
}

/// A compiled title pattern.
pub struct Rule {
    pattern: String,
    regex: regex::Regex,
}

impl View for Rule {
    type V = Seq<char>;

    closed spec fn view(&self) -> Seq<char> {
        self.pattern@
    }
}

impl Rule {
    /// Compiles `pattern`; `None` when it is not a valid regular expression.
    pub fn new(pattern: &str) -> (r: Option<Rule>)
        ensures
            r.is_some() == regex_is_valid(pattern@),
            r matches Some(rule) ==> rule@ == pattern@,
    {
        match compile_regex(pattern) {
            Some(regex) => Some(Rule { pattern: pattern.to_owned(), regex }),
            None => None,
        }
    }

    /// Whether the pattern matches somewhere in `text`.
    pub fn is_match(&self, text: &str) -> (r: bool)
        ensures
            r == regex_matches(self@, text@),
    {
        rule_is_match(self, text)
    }

    pub fn pattern(&self) -> (s: &str)
        ensures
            s@ == self@,
    {
        self.pattern.as_str()
    }
}

/// Some rule of `rules` matches `title`.
pub open spec fn any_matches(rules: Seq<Rule>, title: Seq<char>) -> bool {
    exists|i: int| 0 <= i < rules.len() && regex_matches(#[trigger] rules[i]@, title)
}

/// Whether some rule of `rules` matches `title`.
fn matches_any(rules: &Vec<Rule>, title: &str) -> (r: bool)
    ensures
        r == any_matches(rules@, title@),
{
    let mut i: usize = 0;
    while i < rules.len()
        invariant
            0 <= i <= rules@.len(),
            forall|j: int| 0 <= j < i ==> !regex_matches(#[trigger] rules@[j]@, title@),
        decreases rules@.len() - i,
    {
        if rules[i].is_match(title) {
            return true;
        }
        i = i + 1;
    }
    false
}

/// The rules that decide which windows are tiled, and the monitor of each
/// workspace in the order of the workspaces' indexes.
pub struct Config {
    pub excluded_windows: Vec<Rule>,
    pub managed_windows: Vec<Rule>,
    pub workspaces_monitors: Vec<String>,
}

impl Config {
    /// Some managed rule matches `title`.
    pub open spec fn manages(&self, title: Seq<char>) -> bool {
        any_matches(self.managed_windows@, title)
    }

    /// Some excluding rule matches `title`.
    pub open spec fn excludes(&self, title: Seq<char>) -> bool {
        any_matches(self.excluded_windows@, title)
    }

    pub fn is_excluded(&self, window_title: &str) -> (r: bool)
        ensures
            r == self.excludes(window_title@),
    {
        matches_any(&self.excluded_windows, window_title)
    }

    pub fn is_managed(&self, window_title: &str) -> (r: bool)
        ensures
            r == self.manages(window_title@),
    {
        matches_any(&self.managed_windows, window_title)
    }

    pub fn get_workspaces_monitors(&self) -> (r: &Vec<String>)
        ensures
            r == &self.workspaces_monitors,
    {
        &self.workspaces_monitors
    }
}

/// A line of the rule file, once read.
pub enum Command {
    RuleExclude(Rule),
    RuleManaged(Rule),
    Workspace(usize, String),
}

/// The commands of a rule file, in the order of its lines.
pub struct ConfigBuilder {
    pub commands: Vec<Command>,
}

/// Why the rule file was refused.
#[derive(PartialEq, Eq, Debug)]
pub enum ConfigError {
    /// A line starts with a word that is no command.
    UnknownCommand(String),
    /// A `rule` line names a kind other than `managed` or `exclude`.
    InvalidRuleKind(String),
    /// A `rule` line holds a pattern that does not compile.
    InvalidPattern(String),
}

/// The first index at or after `from` that holds a space, or the length.
pub open spec fn space_from(s: Seq<char>, from: int) -> int
    decreases s.len() - from,
{
    if from >= s.len() {
        s.len() as int
    } else if s[from] == ' ' {
        from
    } else {
        space_from(s, from + 1)
    }
}

/// The first word of a line: what comes before its first space.
pub open spec fn first_word(s: Seq<char>) -> Seq<char> {
    s.take(space_from(s, 0))
}

/// Whether the line holds a second word: it has a space.
pub open spec fn has_second_word(s: Seq<char>) -> bool {
    space_from(s, 0) < s.len()
}

/// The word between the first and second spaces (or the end).
pub open spec fn second_word(s: Seq<char>) -> Seq<char> {
    let first_space = space_from(s, 0);
    s.subrange(first_space + 1, space_from(s, first_space + 1))
}

/// What follows the second space, or nothing when there is none.
pub open spec fn rest_words(s: Seq<char>) -> Seq<char> {
    let second_space = space_from(s, space_from(s, 0) + 1);
    if second_space >= s.len() {
        Seq::empty()
    } else {
        s.subrange(second_space + 1, s.len() as int)
    }
}

pub open spec fn is_digit(c: char) -> bool {
    '0' <= c && c <= '9'
}

/// The value of a string of decimal digits.
pub open spec fn digits_value(s: Seq<char>) -> nat
    decreases s.len(),
{
    if s.len() == 0 {
        0
    } else {
        digits_value(s.drop_last()) * 10 + (s.last() as nat - '0' as nat) as nat
    }
}

/// The digits of an unsigned decimal number: all of `s`, or what follows a
/// leading `+`.
pub open spec fn number_digits(s: Seq<char>) -> Seq<char> {
    if s.len() > 0 && s[0] == '+' {
        s.skip(1)
    } else {
        s
    }
}

/// `s` reads as an unsigned decimal number that fits in a `usize`.
pub open spec fn is_index(s: Seq<char>) -> bool {
    let d = number_digits(s);
    &&& d.len() > 0
    &&& forall|i: int| 0 <= i < d.len() ==> is_digit(#[trigger] d[i])
    &&& digits_value(d) <= usize::MAX
}

/// Reads an unsigned decimal number, with an optional leading `+`, as
/// `usize`'s parser does.
pub fn parse_index(s: &str) -> (r: Option<usize>)
    ensures
        r.is_some() == is_index(s@),
        r matches Some(n) ==> n == digits_value(number_digits(s@)),
{
    let len = s.unicode_len();
    let mut i: usize = 0;
    if len > 0 && s.get_char(0) == '+' {
        i = 1;
    }
    let ghost start = i as int;
    let ghost d = number_digits(s@);
    assert(d =~= s@.skip(start));
    if i == len {
        return None;
    }
    let mut value: usize = 0;
    while i < len
        invariant
            0 <= start <= i <= len,
            len == s@.len(),
            start < len,
            d == s@.skip(start),
            d == number_digits(s@),
            forall|k: int| start <= k < i ==> is_digit(#[trigger] s@[k]),
            value == digits_value(d.take(i - start)),
        decreases len - i,
    {
        let c = s.get_char(i);
        assert(d[i - start] == c);
        assert(d.take(i - start + 1).drop_last() =~= d.take(i - start));
        assert(d.take(i - start + 1).last() == c);
        if !('0' <= c && c <= '9') {
            assert(!is_digit(d[i - start]));
            assert(!is_index(s@));
            return None;
        }
        let digit = (c as u32 - '0' as u32) as usize;
        if value > (usize::MAX - digit) / 10 {
            proof {
                let k = i - start + 1;
                assert(value * 10 + digit > usize::MAX) by (nonlinear_arith)
                    requires
                        value > (usize::MAX - digit) / 10,
                        digit <= 9,
                ;
                assert(digits_value(d.take(k)) == value * 10 + digit);
                if forall|j: int| 0 <= j < d.len() ==> is_digit(#[trigger] d[j]) {
                    lemma_digits_grow(d, k, d.len());
                    assert(d.take(d.len() as int) =~= d);
                }
            }
            return None;
        }
        value = value * 10 + digit;
        i = i + 1;
    }
    assert(d.take(i - start) =~= d);
    Some(value)
}

/// What a command says, as plain values.
pub enum CommandView {
    RuleExclude(Seq<char>),
    RuleManaged(Seq<char>),
    Workspace(usize, Seq<char>),
}

impl View for Command {
    type V = CommandView;

    open spec fn view(&self) -> CommandView {
        match self {
            Command::RuleExclude(rule) => CommandView::RuleExclude(rule@),
            Command::RuleManaged(rule) => CommandView::RuleManaged(rule@),
            Command::Workspace(index, name) => CommandView::Workspace(*index, name@),
        }
    }
}

pub open spec fn command_view(c: Option<Command>) -> Option<CommandView> {
    match c {
        Some(c) => Some(c@),
        None => None,
    }
}

/// The line is accepted: it is empty, a `workspace` line, or a `rule` line
/// that stops after its first word or has a valid pattern and a known kind.
pub open spec fn line_ok(l: Seq<char>) -> bool {
    ||| l.len() == 0
    ||| first_word(l) == "workspace"@
    ||| (first_word(l) == "rule"@ && (!has_second_word(l) || (regex_is_valid(rest_words(l)) && (
    second_word(l) == "managed"@ || second_word(l) == "exclude"@))))
}

/// The command an accepted line gives, if any.
pub open spec fn line_command(l: Seq<char>) -> Option<CommandView> {
    if l.len() == 0 || !has_second_word(l) {
        None
    } else if first_word(l) == "workspace"@ {
        if is_index(second_word(l)) {
            Some(
                CommandView::Workspace(
                    digits_value(number_digits(second_word(l))) as usize,
                    rest_words(l),
                ),
            )
        } else {
            None
        }
    } else if second_word(l) == "managed"@ {
        Some(CommandView::RuleManaged(rest_words(l)))
    } else {
        Some(CommandView::RuleExclude(rest_words(l)))
    }
}

/// `e` is the error that the refused line `l` gives.
pub open spec fn error_fits(e: ConfigError, l: Seq<char>) -> bool {
    match e {
        ConfigError::UnknownCommand(w) => l.len() > 0 && first_word(l) != "workspace"@
            && first_word(l) != "rule"@ && w@ == first_word(l),
        ConfigError::InvalidPattern(p) => l.len() > 0 && first_word(l) == "rule"@
            && has_second_word(l) && !regex_is_valid(rest_words(l)) && p@ == rest_words(l),
        ConfigError::InvalidRuleKind(k) => l.len() > 0 && first_word(l) == "rule"@
            && has_second_word(l) && regex_is_valid(rest_words(l)) && second_word(l)
            != "managed"@ && second_word(l) != "exclude"@ && k@ == second_word(l),
    }
}

/// The first index at or after `from` where `s` holds a space, or its length.
fn find_space(s: &str, len: usize, from: usize) -> (r: usize)
    requires
        len == s@.len(),
        from <= len,
    ensures
        r == space_from(s@, from as int),
        from <= r <= len,
{
    let mut i: usize = from;
    while i < len && s.get_char(i) != ' '
        invariant
            from <= i <= len,
            len == s@.len(),
            space_from(s@, i as int) == space_from(s@, from as int),
        decreases len - i,
    {
        i = i + 1;
    }
    i
}

/// Whether two strings hold the same text.
fn same_text(a: &str, b: &str) -> (r: bool)
    ensures
        r == (a@ == b@),
{
    a.to_owned() == b.to_owned()
}

impl ConfigBuilder {
    /// Reads one line of the rule file: `workspace <index> <monitor name>`,
    /// `rule managed <pattern>` or `rule exclude <pattern>`, words split at
    /// single spaces. An empty line, a `workspace` or `rule` line without
    /// its second word, and a `workspace` line whose index is not a number
    /// give nothing.
    pub fn parse_line(line: &str) -> (r: Result<Option<Command>, ConfigError>)
        ensures
            line_ok(line@) ==> (r matches Ok(c) && command_view(c) == line_command(line@)),
            !line_ok(line@) ==> (r matches Err(e) && error_fits(e, line@)),
    {
        proof {
            reveal_strlit("rule");
            reveal_strlit("workspace");
        }
        let len = line.unicode_len();
        if len == 0 {
            return Ok(None);
        }
        let first_space = find_space(line, len, 0);
        let command = line.substring_char(0, first_space);
        assert(command@ =~= first_word(line@));
        if same_text(command, "workspace") {
            if first_space == len {
                return Ok(None);
            }
            let second_space = find_space(line, len, first_space + 1);
            let index = line.substring_char(first_space + 1, second_space);
            let monitor_name = if second_space == len {
                String::new()
            } else {
                line.substring_char(second_space + 1, len).to_owned()
            };
            proof {
                assert(monitor_name@ =~= rest_words(line@));
            }
            match parse_index(index) {
                Some(workspace_index) => Ok(Some(Command::Workspace(workspace_index, monitor_name))),
                None => Ok(None),
            }
        } else if same_text(command, "rule") {
            if first_space == len {
                return Ok(None);
            }
            let second_space = find_space(line, len, first_space + 1);
            let rule_command = line.substring_char(first_space + 1, second_space);
            let remaining_line = if second_space == len {
                ""
            } else {
                line.substring_char(second_space + 1, len)
            };
            proof {
                if second_space == len {
                    assert(remaining_line@ =~= rest_words(line@)) by {
                        reveal_strlit("");
                    }
                }
                assert(remaining_line@ =~= rest_words(line@));
            }
            let rule = match Rule::new(remaining_line) {
                Some(rule) => rule,
                None => return Err(ConfigError::InvalidPattern(remaining_line.to_owned())),
            };
            if same_text(rule_command, "managed") {
                Ok(Some(Command::RuleManaged(rule)))
            } else if same_text(rule_command, "exclude") {
                Ok(Some(Command::RuleExclude(rule)))
            } else {
                Err(ConfigError::InvalidRuleKind(rule_command.to_owned()))
            }
        } else {
            Err(ConfigError::UnknownCommand(command.to_owned()))
        }
    }
}

/// The commands that a sequence of accepted lines gives, in order.
pub open spec fn commands_of(lines: Seq<Seq<char>>) -> Seq<CommandView>
    decreases lines.len(),
{
    if lines.len() == 0 {
        Seq::empty()
    } else {
        commands_of(lines.drop_last()) + match line_command(lines.last()) {
            Some(c) => seq![c],
            None => Seq::empty(),
        }
    }
}

pub open spec fn texts(v: Seq<String>) -> Seq<Seq<char>> {
    v.map_values(|s: String| s@)
}

pub open spec fn command_views(v: Seq<Command>) -> Seq<CommandView> {
    v.map_values(|c: Command| c@)
}

/// The patterns of the `rule managed` commands, in order.
pub open spec fn managed_patterns(cs: Seq<CommandView>) -> Seq<Seq<char>>
    decreases cs.len(),
{
    if cs.len() == 0 {
        Seq::empty()
    } else {
        managed_patterns(cs.drop_last()) + match cs.last() {
            CommandView::RuleManaged(p) => seq![p],
            _ => Seq::empty(),
        }
    }
}

/// The patterns of the `rule exclude` commands, in order.
pub open spec fn excluded_patterns(cs: Seq<CommandView>) -> Seq<Seq<char>>
    decreases cs.len(),
{
    if cs.len() == 0 {
        Seq::empty()
    } else {
        excluded_patterns(cs.drop_last()) + match cs.last() {
            CommandView::RuleExclude(p) => seq![p],
            _ => Seq::empty(),
        }
    }
}

/// The `workspace` commands as pairs of index and monitor name, in order.
pub open spec fn bindings(cs: Seq<CommandView>) -> Seq<(usize, Seq<char>)>
    decreases cs.len(),
{
    if cs.len() == 0 {
        Seq::empty()
    } else {
        bindings(cs.drop_last()) + match cs.last() {
            CommandView::Workspace(i, n) => seq![(i, n)],
            _ => Seq::empty(),
        }
    }
}

/// `b` put into `sorted` after every binding whose index is not greater.
pub open spec fn insert_binding(sorted: Seq<(usize, Seq<char>)>, b: (usize, Seq<char>)) -> Seq<
    (usize, Seq<char>),
>
    decreases sorted.len(),
{
    if sorted.len() == 0 {
        seq![b]
    } else if sorted.last().0 <= b.0 {
        sorted.push(b)
    } else {
        insert_binding(sorted.drop_last(), b).push(sorted.last())
    }
}

/// The bindings ordered by index; bindings of equal index keep their order.
pub open spec fn sort_bindings(bs: Seq<(usize, Seq<char>)>) -> Seq<(usize, Seq<char>)>
    decreases bs.len(),
{
    if bs.len() == 0 {
        bs
    } else {
        insert_binding(sort_bindings(bs.drop_last()), bs.last())
    }
}

/// Where the scan from the back stops, `b` goes.
proof fn lemma_insert_binding_at(s: Seq<(usize, Seq<char>)>, b: (usize, Seq<char>), j: int)
    requires
        0 <= j <= s.len(),
        forall|k: int| j <= k < s.len() ==> (#[trigger] s[k]).0 > b.0,
        j == 0 || s[j - 1].0 <= b.0,
    ensures
        insert_binding(s, b) == s.take(j).push(b) + s.skip(j),
    decreases s.len(),
{
    if s.len() == j {
        assert(s.skip(j) =~= Seq::<(usize, Seq<char>)>::empty());
        assert(s.take(j) =~= s);
    } else {
        lemma_insert_binding_at(s.drop_last(), b, j);
        assert(s.drop_last().take(j) =~= s.take(j));
        assert(s.drop_last().skip(j).push(s.last()) =~= s.skip(j));
        assert((s.take(j).push(b) + s.drop_last().skip(j)).push(s.last()) =~= s.take(j).push(b)
            + s.skip(j));
    }
}

/// The monitor names of a sequence of bindings.
pub open spec fn binding_names(bs: Seq<(usize, Seq<char>)>) -> Seq<Seq<char>> {
    bs.map_values(|b: (usize, Seq<char>)| b.1)
}

pub open spec fn binding_seq(v: Seq<(usize, String)>) -> Seq<(usize, Seq<char>)> {
    v.map_values(|b: (usize, String)| (b.0, b.1@))
}

impl ConfigBuilder {
    /// Reads the lines of a rule file in order; the first refused line
    /// gives the error.
    pub fn new(lines: &Vec<String>) -> (r: Result<ConfigBuilder, ConfigError>)
        ensures
            (forall|i: int| 0 <= i < lines@.len() ==> line_ok(#[trigger] lines@[i]@)) ==> (
            r matches Ok(b) && command_views(b.commands@) == commands_of(texts(lines@))),
            !(forall|i: int| 0 <= i < lines@.len() ==> line_ok(#[trigger] lines@[i]@)) ==> (
            r matches Err(e) && exists|i: int|
                0 <= i < lines@.len() && !line_ok(#[trigger] lines@[i]@) && (forall|j: int|
                    0 <= j < i ==> line_ok(#[trigger] lines@[j]@)) && error_fits(e, lines@[i]@)),
    {
        let mut commands: Vec<Command> = Vec::new();
        let mut i: usize = 0;
        while i < lines.len()
            invariant
                0 <= i <= lines@.len(),
                forall|j: int| 0 <= j < i ==> line_ok(#[trigger] lines@[j]@),
                command_views(commands@) == commands_of(texts(lines@).take(i as int)),
            decreases lines@.len() - i,
        {
            let ghost before = command_views(commands@);
            match ConfigBuilder::parse_line(lines[i].as_str()) {
                Ok(Some(command)) => {
                    commands.push(command);
                },
                Ok(None) => {},
                Err(e) => {
                    return Err(e);
                },
            }
            proof {
                let t = texts(lines@);
                assert(t.take(i as int + 1).drop_last() =~= t.take(i as int));
                assert(t.take(i as int + 1).last() == lines@[i as int]@);
                assert(command_views(commands@) =~= commands_of(t.take(i as int + 1)));
            }
            i = i + 1;
        }
        assert(texts(lines@).take(i as int) =~= texts(lines@));
        Ok(ConfigBuilder { commands })
    }

    /// The rules in the order of their lines, and the monitor names of the
    /// workspaces ordered by workspace index (equal indexes keep their
    /// order).
    pub fn build(self) -> (c: Config)
        ensures
            c.managed_windows@.map_values(|r: Rule| r@) == managed_patterns(
                command_views(self.commands@),
            ),
            c.excluded_windows@.map_values(|r: Rule| r@) == excluded_patterns(
                command_views(self.commands@),
            ),
            texts(c.workspaces_monitors@) == binding_names(
                sort_bindings(bindings(command_views(self.commands@))),
            ),
    {
        let mut managed_rule_regexes: Vec<Rule> = Vec::new();
        let mut unmanaged_rule_regexes: Vec<Rule> = Vec::new();
        let mut workspaces: Vec<(usize, String)> = Vec::new();
        let ghost all = command_views(self.commands@);
        let mut taken = self.commands;
        let ghost orig = taken@;
        let ghost mut done: int = 0;
        while taken.len() > 0
            invariant
                0 <= done <= orig.len(),
                all == command_views(orig),
                taken@ == orig.skip(done),
                managed_rule_regexes@.map_values(|r: Rule| r@) == managed_patterns(
                    all.take(done),
                ),
                unmanaged_rule_regexes@.map_values(|r: Rule| r@) == excluded_patterns(
                    all.take(done),
                ),
                binding_seq(workspaces@) == sort_bindings(
                    bindings(all.take(done)),
                ),
            decreases taken@.len(),
        {
            let command = taken.remove(0);
            let ghost next = all.take(done + 1);
            proof {
                assert(next.drop_last() =~= all.take(done));
                assert(command == orig[done]);
                assert(next.last() == command@);
            }
            match command {
                Command::RuleExclude(regex) => {
                    unmanaged_rule_regexes.push(regex);
                    assert(unmanaged_rule_regexes@.map_values(|r: Rule| r@) =~= excluded_patterns(
                        next,
                    ));
                    assert(managed_rule_regexes@.map_values(|r: Rule| r@) =~= managed_patterns(next));
                    assert(bindings(next) =~= bindings(all.take(done)));
                },
                Command::RuleManaged(regex) => {
                    managed_rule_regexes.push(regex);
                    assert(managed_rule_regexes@.map_values(|r: Rule| r@) =~= managed_patterns(next));
                    assert(unmanaged_rule_regexes@.map_values(|r: Rule| r@) =~= excluded_patterns(
                        next,
                    ));
                    assert(bindings(next) =~= bindings(all.take(done)));
                },
                Command::Workspace(index, name) => {
                    let ghost sorted = binding_seq(workspaces@);
                    let mut pos: usize = workspaces.len();
                    while pos > 0 && workspaces[pos - 1].0 > index
                        invariant
                            0 <= pos <= workspaces@.len(),
                            sorted == binding_seq(workspaces@),
                            forall|k: int| pos <= k < sorted.len() ==> (#[trigger] sorted[k]).0 > index,
                        decreases pos,
                    {
                        pos = pos - 1;
                    }
                    let ghost b = (index, name@);
                    proof {
                        lemma_insert_binding_at(sorted, b, pos as int);
                    }
                    workspaces.insert(pos, (index, name));
                    assert(binding_seq(workspaces@) =~= sorted.take(
                        pos as int,
                    ).push(b) + sorted.skip(pos as int));
                    assert(bindings(next) =~= bindings(all.take(done)).push(b));
                    assert(bindings(next).drop_last() =~= bindings(all.take(done)));
                    assert(managed_rule_regexes@.map_values(|r: Rule| r@) =~= managed_patterns(next));
                    assert(unmanaged_rule_regexes@.map_values(|r: Rule| r@) =~= excluded_patterns(
                        next,
                    ));
                },
            }
            proof {
                done = done + 1;
                assert(taken@ =~= orig.skip(done));
            }
        }
        assert(all.take(done) =~= all);
        let ghost sorted = binding_seq(workspaces@);
        let mut workspaces_monitors: Vec<String> = Vec::new();
        let mut taken = workspaces;
        let ghost mut done: int = 0;
        while taken.len() > 0
            invariant
                0 <= done <= sorted.len(),
                binding_seq(taken@) == sorted.skip(done),
                texts(workspaces_monitors@) == binding_names(sorted.take(done)),
            decreases taken@.len(),
        {
            let ghost old_taken = taken@;
            let binding = taken.remove(0);
            proof {
                assert(binding_seq(old_taken)[0] == sorted.skip(done)[0]);
                assert(binding_seq(taken@) =~= binding_seq(old_taken).skip(1));
                assert(binding == old_taken[0]);
                assert(binding.1@ == sorted[done].1);
            }
            let ghost before = workspaces_monitors@;
            workspaces_monitors.push(binding.1);
            proof {
                assert(workspaces_monitors@ == before.push(binding.1));
                assert(sorted.take(done + 1) =~= sorted.take(done).push(sorted[done]));
                assert(binding_seq(taken@) =~= sorted.skip(done + 1));
                assert(texts(workspaces_monitors@) =~= texts(before).push(binding.1@));
                assert(binding_names(sorted.take(done + 1)) =~= binding_names(sorted.take(done)).push(
                    sorted[done].1,
                ));
                assert(texts(workspaces_monitors@) =~= binding_names(sorted.take(done + 1)));
                done = done + 1;
            }
        }
        assert(sorted.take(done) =~= sorted);
        Config {
            excluded_windows: unmanaged_rule_regexes,
            managed_windows: managed_rule_regexes,
            workspaces_monitors,
        }
    }
}

/// A prefix of digits is worth no more than a longer prefix of the same.
proof fn lemma_digits_grow(d: Seq<char>, k: int, n: nat)
    requires
        0 < k <= n <= d.len(),
        forall|i: int| 0 <= i < n ==> is_digit(#[trigger] d[i]),
    ensures
        digits_value(d.take(k)) <= digits_value(d.take(n as int)),
    decreases n - k,
{
    if k < n {
        lemma_digits_grow(d, k, (n - 1) as nat);
        assert(d.take(n as int).drop_last() =~= d.take(n - 1));
    }
}

} // verus!
