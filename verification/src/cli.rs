//! The command shell: the command set, parsing of a command line, authorization, and the
//! decisions and replies of each command.
//!
//! The device work a command needs (driving the LED, the file system, the clock, the
//! network) is done by the caller; the functions here decide what is done and what is
//! answered.

use vstd::prelude::*;
use crate::text::{
    chars_of, str_eq_chars, tokens, tokens_exec, string_of, text, push_str, push_chars, utf8_len,
    bpush, bpush_exec, last_bytes, last_bytes_of, suffix_on_boundary, lemma_encode_len,
    push_lit, append_chars, fmt_pieces, fmt_concat, fit, views, decode_chars,
};
use vstd::utf8::{decode_utf8, valid_utf8};
use crate::number::{dec, push_dec};
use crate::datetime::{DateTime, datetime_text, push_datetime};
use crate::path::{resolve_path, resolve_path_str};

verus! {

broadcast use vstd::seq::group_seq_axioms;

/// A shell command: its name, its one-line description, and whether a network session
/// must be authenticated to run it.
pub trait Command {
    spec fn spec_name(&self) -> Seq<char>;

    spec fn spec_description(&self) -> Seq<char>;

    spec fn spec_authenticated(&self) -> bool;

    fn name(&self) -> (r: &str)
        ensures
            r@ == self.spec_name(),
    ;

    fn description(&self) -> (r: &str)
        ensures
            r@ == self.spec_description(),
    ;

    fn authenticated(&self) -> (r: bool)
        ensures
            r == self.spec_authenticated(),
    ;
}

pub struct HelpCommand;

impl Command for HelpCommand {
    open spec fn spec_name(&self) -> Seq<char> {
        "help"@
    }

    open spec fn spec_description(&self) -> Seq<char> {
        "Show this help"@
    }

    open spec fn spec_authenticated(&self) -> bool {
        false
    }

    fn name(&self) -> (r: &str) {
        "help"
    }

    fn description(&self) -> (r: &str) {
        "Show this help"
    }

    fn authenticated(&self) -> (r: bool) {
        false
    }
}

pub struct LedCommand;

impl Command for LedCommand {
    open spec fn spec_name(&self) -> Seq<char> {
        "led"@
    }

    open spec fn spec_description(&self) -> Seq<char> {
        "Control GP28 LED (led on/off)"@
    }

    open spec fn spec_authenticated(&self) -> bool {
        true
    }

    fn name(&self) -> (r: &str) {
        "led"
    }

    fn description(&self) -> (r: &str) {
        "Control GP28 LED (led on/off)"
    }

    fn authenticated(&self) -> (r: bool) {
        true
    }
}

pub struct InfoCommand;

impl Command for InfoCommand {
    open spec fn spec_name(&self) -> Seq<char> {
        "info"@
    }

    open spec fn spec_description(&self) -> Seq<char> {
        "Show system info"@
    }

    open spec fn spec_authenticated(&self) -> bool {
        true
    }

    fn name(&self) -> (r: &str) {
        "info"
    }

    fn description(&self) -> (r: &str) {
        "Show system info"
    }

    fn authenticated(&self) -> (r: bool) {
        true
    }
}

pub struct EchoCommand;

impl Command for EchoCommand {
    open spec fn spec_name(&self) -> Seq<char> {
        "echo"@
    }

    open spec fn spec_description(&self) -> Seq<char> {
        "Echo the input message"@
    }

    open spec fn spec_authenticated(&self) -> bool {
        true
    }

    fn name(&self) -> (r: &str) {
        "echo"
    }

    fn description(&self) -> (r: &str) {
        "Echo the input message"
    }

    fn authenticated(&self) -> (r: bool) {
        true
    }
}

pub struct LogCommand;

impl Command for LogCommand {
    open spec fn spec_name(&self) -> Seq<char> {
        "log"@
    }

    open spec fn spec_description(&self) -> Seq<char> {
        "Manage logs (print, clear, record) and level (error, warn, info, debug, trace)"@
    }

    open spec fn spec_authenticated(&self) -> bool {
        true
    }

    fn name(&self) -> (r: &str) {
        "log"
    }

    fn description(&self) -> (r: &str) {
        "Manage logs (print, clear, record) and level (error, warn, info, debug, trace)"
    }

    fn authenticated(&self) -> (r: bool) {
        true
    }
}

pub struct AuthCommand;

impl Command for AuthCommand {
    open spec fn spec_name(&self) -> Seq<char> {
        "auth"@
    }

    open spec fn spec_description(&self) -> Seq<char> {
        "Authenticate the BLE connection"@
    }

    open spec fn spec_authenticated(&self) -> bool {
        false
    }

    fn name(&self) -> (r: &str) {
        "auth"
    }

    fn description(&self) -> (r: &str) {
        "Authenticate the BLE connection"
    }

    fn authenticated(&self) -> (r: bool) {
        false
    }
}

pub struct RebootCommand;

impl Command for RebootCommand {
    open spec fn spec_name(&self) -> Seq<char> {
        "reboot"@
    }

    open spec fn spec_description(&self) -> Seq<char> {
        "Reset the system"@
    }

    open spec fn spec_authenticated(&self) -> bool {
        false
    }

    fn name(&self) -> (r: &str) {
        "reboot"
    }

    fn description(&self) -> (r: &str) {
        "Reset the system"
    }

    fn authenticated(&self) -> (r: bool) {
        false
    }
}

pub struct MkdirCommand;

impl Command for MkdirCommand {
    open spec fn spec_name(&self) -> Seq<char> {
        "mkdir"@
    }

    open spec fn spec_description(&self) -> Seq<char> {
        "Create a directory in the filesystem"@
    }

    open spec fn spec_authenticated(&self) -> bool {
        true
    }

    fn name(&self) -> (r: &str) {
        "mkdir"
    }

    fn description(&self) -> (r: &str) {
        "Create a directory in the filesystem"
    }

    fn authenticated(&self) -> (r: bool) {
        true
    }
}

pub struct CdCommand;

impl Command for CdCommand {
    open spec fn spec_name(&self) -> Seq<char> {
        "cd"@
    }

    open spec fn spec_description(&self) -> Seq<char> {
        "Change the current working directory"@
    }

    open spec fn spec_authenticated(&self) -> bool {
        true
    }

    fn name(&self) -> (r: &str) {
        "cd"
    }

    fn description(&self) -> (r: &str) {
        "Change the current working directory"
    }

    fn authenticated(&self) -> (r: bool) {
        true
    }
}

pub struct LsCommand;

impl Command for LsCommand {
    open spec fn spec_name(&self) -> Seq<char> {
        "ls"@
    }

    open spec fn spec_description(&self) -> Seq<char> {
        "List directory contents"@
    }

    open spec fn spec_authenticated(&self) -> bool {
        true
    }

    fn name(&self) -> (r: &str) {
        "ls"
    }

    fn description(&self) -> (r: &str) {
        "List directory contents"
    }

    fn authenticated(&self) -> (r: bool) {
        true
    }
}

pub struct CatCommand;

impl Command for CatCommand {
    open spec fn spec_name(&self) -> Seq<char> {
        "cat"@
    }

    open spec fn spec_description(&self) -> Seq<char> {
        "Read file content and stream to terminal"@
    }

    open spec fn spec_authenticated(&self) -> bool {
        true
    }

    fn name(&self) -> (r: &str) {
        "cat"
    }

    fn description(&self) -> (r: &str) {
        "Read file content and stream to terminal"
    }

    fn authenticated(&self) -> (r: bool) {
        true
    }
}

pub struct WifiResetCommand;

impl Command for WifiResetCommand {
    open spec fn spec_name(&self) -> Seq<char> {
        "wifi"@
    }

    open spec fn spec_description(&self) -> Seq<char> {
        "Manage WiFi settings (e.g. 'wifi reset')"@
    }

    open spec fn spec_authenticated(&self) -> bool {
        true
    }

    fn name(&self) -> (r: &str) {
        "wifi"
    }

    fn description(&self) -> (r: &str) {
        "Manage WiFi settings (e.g. 'wifi reset')"
    }

    fn authenticated(&self) -> (r: bool) {
        true
    }
}

pub struct SysScanCommand;

impl Command for SysScanCommand {
    open spec fn spec_name(&self) -> Seq<char> {
        "sys_scan"@
    }

    open spec fn spec_description(&self) -> Seq<char> {
        "Internal system scan command"@
    }

    open spec fn spec_authenticated(&self) -> bool {
        true
    }

    fn name(&self) -> (r: &str) {
        "sys_scan"
    }

    fn description(&self) -> (r: &str) {
        "Internal system scan command"
    }

    fn authenticated(&self) -> (r: bool) {
        true
    }
}

pub struct NtpCommand;

impl Command for NtpCommand {
    open spec fn spec_name(&self) -> Seq<char> {
        "ntp"@
    }

    open spec fn spec_description(&self) -> Seq<char> {
        "Configure NTP server (set <server>)"@
    }

    open spec fn spec_authenticated(&self) -> bool {
        false
    }

    fn name(&self) -> (r: &str) {
        "ntp"
    }

    fn description(&self) -> (r: &str) {
        "Configure NTP server (set <server>)"
    }

    fn authenticated(&self) -> (r: bool) {
        false
    }
}

pub struct TzCommand;

impl Command for TzCommand {
    open spec fn spec_name(&self) -> Seq<char> {
        "tz"@
    }

    open spec fn spec_description(&self) -> Seq<char> {
        "Set/Show timezone offset (e.g. tz set 9)"@
    }

    open spec fn spec_authenticated(&self) -> bool {
        false
    }

    fn name(&self) -> (r: &str) {
        "tz"
    }

    fn description(&self) -> (r: &str) {
        "Set/Show timezone offset (e.g. tz set 9)"
    }

    fn authenticated(&self) -> (r: bool) {
        false
    }
}

/// Every command of the shell.
pub enum CommandEnum {
    Help(HelpCommand),
    Led(LedCommand),
    Info(InfoCommand),
    Echo(EchoCommand),
    Log(LogCommand),
    Auth(AuthCommand),
    Reboot(RebootCommand),
    Mkdir(MkdirCommand),
    Cd(CdCommand),
    Ls(LsCommand),
    Cat(CatCommand),
    WifiReset(WifiResetCommand),
    SysScan(SysScanCommand),
    Ntp(NtpCommand),
    Tz(TzCommand),
}

impl CommandEnum {
    pub open spec fn spec_name(&self) -> Seq<char> {
        match self {
            CommandEnum::Help(c) => c.spec_name(),
            CommandEnum::Led(c) => c.spec_name(),
            CommandEnum::Info(c) => c.spec_name(),
            CommandEnum::Echo(c) => c.spec_name(),
            CommandEnum::Log(c) => c.spec_name(),
            CommandEnum::Auth(c) => c.spec_name(),
            CommandEnum::Reboot(c) => c.spec_name(),
            CommandEnum::Mkdir(c) => c.spec_name(),
            CommandEnum::Cd(c) => c.spec_name(),
            CommandEnum::Ls(c) => c.spec_name(),
            CommandEnum::Cat(c) => c.spec_name(),
            CommandEnum::WifiReset(c) => c.spec_name(),
            CommandEnum::SysScan(c) => c.spec_name(),
            CommandEnum::Ntp(c) => c.spec_name(),
            CommandEnum::Tz(c) => c.spec_name(),
        }
    }

    pub open spec fn spec_description(&self) -> Seq<char> {
        match self {
            CommandEnum::Help(c) => c.spec_description(),
            CommandEnum::Led(c) => c.spec_description(),
            CommandEnum::Info(c) => c.spec_description(),
            CommandEnum::Echo(c) => c.spec_description(),
            CommandEnum::Log(c) => c.spec_description(),
            CommandEnum::Auth(c) => c.spec_description(),
            CommandEnum::Reboot(c) => c.spec_description(),
            CommandEnum::Mkdir(c) => c.spec_description(),
            CommandEnum::Cd(c) => c.spec_description(),
            CommandEnum::Ls(c) => c.spec_description(),
            CommandEnum::Cat(c) => c.spec_description(),
            CommandEnum::WifiReset(c) => c.spec_description(),
            CommandEnum::SysScan(c) => c.spec_description(),
            CommandEnum::Ntp(c) => c.spec_description(),
            CommandEnum::Tz(c) => c.spec_description(),
        }
    }

    pub open spec fn spec_authenticated(&self) -> bool {
        match self {
            CommandEnum::Help(c) => c.spec_authenticated(),
            CommandEnum::Led(c) => c.spec_authenticated(),
            CommandEnum::Info(c) => c.spec_authenticated(),
            CommandEnum::Echo(c) => c.spec_authenticated(),
            CommandEnum::Log(c) => c.spec_authenticated(),
            CommandEnum::Auth(c) => c.spec_authenticated(),
            CommandEnum::Reboot(c) => c.spec_authenticated(),
            CommandEnum::Mkdir(c) => c.spec_authenticated(),
            CommandEnum::Cd(c) => c.spec_authenticated(),
            CommandEnum::Ls(c) => c.spec_authenticated(),
            CommandEnum::Cat(c) => c.spec_authenticated(),
            CommandEnum::WifiReset(c) => c.spec_authenticated(),
            CommandEnum::SysScan(c) => c.spec_authenticated(),
            CommandEnum::Ntp(c) => c.spec_authenticated(),
            CommandEnum::Tz(c) => c.spec_authenticated(),
        }
    }

    /// The command's name.
    pub fn name(&self) -> (r: &str)
        ensures
            r@ == self.spec_name(),
    {
        match self {
            CommandEnum::Help(c) => c.name(),
            CommandEnum::Led(c) => c.name(),
            CommandEnum::Info(c) => c.name(),
            CommandEnum::Echo(c) => c.name(),
            CommandEnum::Log(c) => c.name(),
            CommandEnum::Auth(c) => c.name(),
            CommandEnum::Reboot(c) => c.name(),
            CommandEnum::Mkdir(c) => c.name(),
            CommandEnum::Cd(c) => c.name(),
            CommandEnum::Ls(c) => c.name(),
            CommandEnum::Cat(c) => c.name(),
            CommandEnum::WifiReset(c) => c.name(),
            CommandEnum::SysScan(c) => c.name(),
            CommandEnum::Ntp(c) => c.name(),
            CommandEnum::Tz(c) => c.name(),
        }
    }

    /// The command's one-line description.
    pub fn description(&self) -> (r: &str)
        ensures
            r@ == self.spec_description(),
    {
        match self {
            CommandEnum::Help(c) => c.description(),
            CommandEnum::Led(c) => c.description(),
            CommandEnum::Info(c) => c.description(),
            CommandEnum::Echo(c) => c.description(),
            CommandEnum::Log(c) => c.description(),
            CommandEnum::Auth(c) => c.description(),
            CommandEnum::Reboot(c) => c.description(),
            CommandEnum::Mkdir(c) => c.description(),
            CommandEnum::Cd(c) => c.description(),
            CommandEnum::Ls(c) => c.description(),
            CommandEnum::Cat(c) => c.description(),
            CommandEnum::WifiReset(c) => c.description(),
            CommandEnum::SysScan(c) => c.description(),
            CommandEnum::Ntp(c) => c.description(),
            CommandEnum::Tz(c) => c.description(),
        }
    }

    /// Whether a network session must be authenticated to run the command.
    pub fn authenticated(&self) -> (r: bool)
        ensures
            r == self.spec_authenticated(),
    {
        match self {
            CommandEnum::Help(c) => c.authenticated(),
            CommandEnum::Led(c) => c.authenticated(),
            CommandEnum::Info(c) => c.authenticated(),
            CommandEnum::Echo(c) => c.authenticated(),
            CommandEnum::Log(c) => c.authenticated(),
            CommandEnum::Auth(c) => c.authenticated(),
            CommandEnum::Reboot(c) => c.authenticated(),
            CommandEnum::Mkdir(c) => c.authenticated(),
            CommandEnum::Cd(c) => c.authenticated(),
            CommandEnum::Ls(c) => c.authenticated(),
            CommandEnum::Cat(c) => c.authenticated(),
            CommandEnum::WifiReset(c) => c.authenticated(),
            CommandEnum::SysScan(c) => c.authenticated(),
            CommandEnum::Ntp(c) => c.authenticated(),
            CommandEnum::Tz(c) => c.authenticated(),
        }
    }
}

/// The commands in the order the shell lists and searches them.
pub open spec fn command_table() -> Seq<CommandEnum> {
    seq![
        CommandEnum::Help(HelpCommand),
        CommandEnum::Led(LedCommand),
        CommandEnum::Info(InfoCommand),
        CommandEnum::Echo(EchoCommand),
        CommandEnum::Log(LogCommand),
        CommandEnum::Auth(AuthCommand),
        CommandEnum::Reboot(RebootCommand),
        CommandEnum::Mkdir(MkdirCommand),
        CommandEnum::Cd(CdCommand),
        CommandEnum::Ls(LsCommand),
        CommandEnum::Cat(CatCommand),
        CommandEnum::WifiReset(WifiResetCommand),
        CommandEnum::SysScan(SysScanCommand),
        CommandEnum::Ntp(NtpCommand),
        CommandEnum::Tz(TzCommand),
    ]
}

/// The commands in the order the shell lists and searches them.
pub fn commands() -> (v: Vec<CommandEnum>)
    ensures
        v@ == command_table(),
{
    let v = vec![
        CommandEnum::Help(HelpCommand),
        CommandEnum::Led(LedCommand),
        CommandEnum::Info(InfoCommand),
        CommandEnum::Echo(EchoCommand),
        CommandEnum::Log(LogCommand),
        CommandEnum::Auth(AuthCommand),
        CommandEnum::Reboot(RebootCommand),
        CommandEnum::Mkdir(MkdirCommand),
        CommandEnum::Cd(CdCommand),
        CommandEnum::Ls(LsCommand),
        CommandEnum::Cat(CatCommand),
        CommandEnum::WifiReset(WifiResetCommand),
        CommandEnum::SysScan(SysScanCommand),
        CommandEnum::Ntp(NtpCommand),
        CommandEnum::Tz(TzCommand),
    ];
    assert(v@ =~= command_table());
    v
}

/// The first command of `table` named `name`.
pub open spec fn lookup_in(table: Seq<CommandEnum>, name: Seq<char>) -> Option<CommandEnum>
    decreases table.len(),
{
    if table.len() == 0 {
        None
    } else if table[0].spec_name() == name {
        Some(table[0])
    } else {
        lookup_in(table.drop_first(), name)
    }
}

/// The command named `name`.
pub open spec fn lookup(name: Seq<char>) -> Option<CommandEnum> {
    lookup_in(command_table(), name)
}

/// The command named `name`, searched in table order.
pub fn find_command(name: &[char]) -> (r: Option<CommandEnum>)
    ensures
        r == lookup(name@),
{
    let mut table = commands();
    let ghost full = table@;
    let mut i: usize = 0;
    assert(full.skip(0) =~= full);
    while i < table.len()
        invariant
            i <= table.len(),
            table@ == full,
            full == command_table(),
            lookup_in(full, name@) == lookup_in(full.skip(i as int), name@),
        decreases table.len() - i,
    {
        let hit = str_eq_chars(table[i].name(), name);
        assert(full.skip(i as int)[0] == full[i as int]);
        assert(full.skip(i as int).drop_first() =~= full.skip(i + 1));
        if hit {
            let c = table.swap_remove(i);
            return Some(c);
        }
        i = i + 1;
    }
    assert(full.skip(i as int) =~= Seq::<CommandEnum>::empty());
    None
}


// ---------------------------------------------------------------------------
// Command lines
// ---------------------------------------------------------------------------

/// The character views of a sequence of strings.
pub open spec fn words_view(v: Seq<String>) -> Seq<Seq<char>> {
    Seq::new(v.len(), |i: int| v[i]@)
}

/// Reply to a line whose first word names no command.
pub open spec fn unknown_reply(name: Seq<char>) -> Seq<char> {
    "Unknown command: "@ + name + "\r\n"@
}

/// Reply to a command refused for want of authentication.
pub open spec fn unauthorized_reply() -> Seq<char> {
    "Unauthored. Please run 'auth <passkey>' first.\r\n"@
}

/// What a command line leads to.
pub enum Dispatch {
    /// The line holds no word: nothing is done.
    Empty,
    /// The first word names no command; the reply says so.
    Unknown(String),
    /// The command needs an authenticated session; the reply says so.
    Unauthorized(String),
    /// Run the command with the remaining words as its arguments.
    Run(CommandEnum, Vec<String>),
}

/// A network session that has not authenticated may not run a command that needs it.
pub open spec fn refused(c: CommandEnum, from_tcp: bool, tcp_authenticated: bool) -> bool {
    from_tcp && !tcp_authenticated && c.spec_authenticated()
}

/// The outcome of a command line.
pub open spec fn dispatch_spec(line: Seq<char>, from_tcp: bool, tcp_authenticated: bool, d: Dispatch) -> bool {
    let t = tokens(line);
    match d {
        Dispatch::Empty => t.len() == 0,
        Dispatch::Unknown(r) => t.len() > 0 && lookup(t[0]) is None && r@ == unknown_reply(t[0]),
        Dispatch::Unauthorized(r) => t.len() > 0 && (lookup(t[0]) matches Some(c) && refused(
            c,
            from_tcp,
            tcp_authenticated,
        )) && r@ == unauthorized_reply(),
        Dispatch::Run(c, args) => t.len() > 0 && lookup(t[0]) == Some(c) && !refused(
            c,
            from_tcp,
            tcp_authenticated,
        ) && words_view(args@) == t.drop_first(),
    }
}

/// Number of words of a line.
pub fn token_count(line: &str) -> (n: usize)
    ensures
        n == tokens(line@).len(),
{
    let v = chars_of(line);
    let t = tokens_exec(v.as_slice());
    t.len()
}

fn strings_of(words: &Vec<Vec<char>>, from: usize) -> (r: Vec<String>)
    requires
        from <= words.len(),
    ensures
        words_view(r@) == words.deep_view().skip(from as int),
{
    let mut r: Vec<String> = Vec::new();
    let mut i = from;
    while i < words.len()
        invariant
            from <= i <= words.len(),
            words_view(r@) == words.deep_view().subrange(from as int, i as int),
        decreases words.len() - i,
    {
        let s = string_of(words[i].as_slice());
        let ghost old_r = r@;
        assert(words_view(old_r).len() == old_r.len());
        assert(old_r.len() == i - from);
        assert(words.deep_view()[i as int] =~= words@[i as int]@);
        r.push(s);
        assert(words_view(r@).len() == i + 1 - from);
        assert(words_view(r@) =~= words.deep_view().subrange(from as int, i + 1)) by {
            assert forall|k: int| 0 <= k < r@.len() implies #[trigger] words_view(r@)[k]
                == words.deep_view().subrange(from as int, i + 1)[k] by {
                if k < old_r.len() {
                    assert(words_view(old_r)[k] == words_view(r@)[k]);
                    assert(words.deep_view().subrange(from as int, i as int)[k] == words.deep_view().subrange(from as int, i + 1)[k]);
                } else {
                    assert(r@[k] == s);
                }
            }
        }
        i = i + 1;
    }
    assert(words.deep_view().subrange(from as int, words.len() as int) =~= words.deep_view().skip(
        from as int,
    ));
    r
}

/// Parses a command line and decides what it leads to; every word after the command name
/// is passed on as an argument.
pub fn dispatch(line: &str, from_tcp: bool, tcp_authenticated: bool) -> (d: Dispatch)
    ensures
        dispatch_spec(line@, from_tcp, tcp_authenticated, d),
{
    let v = chars_of(line);
    let t = tokens_exec(v.as_slice());
    if t.len() == 0 {
        return Dispatch::Empty;
    }
    assert(t.deep_view()[0] == t@[0]@);
    match find_command(t[0].as_slice()) {
        None => {
            let mut r = text("Unknown command: ");
            push_chars(&mut r, t[0].as_slice());
            push_str(&mut r, "\r\n");
            Dispatch::Unknown(r)
        },
        Some(c) => {
            if from_tcp && !tcp_authenticated && c.authenticated() {
                Dispatch::Unauthorized(text("Unauthored. Please run 'auth <passkey>' first.\r\n"))
            } else {
                let args = strings_of(&t, 1);
                assert(t.deep_view().skip(1) =~= t.deep_view().drop_first());
                Dispatch::Run(c, args)
            }
        },
    }
}

/// The names of the commands, in table order.
pub open spec fn command_names() -> Seq<Seq<char>> {
    Seq::new(command_table().len(), |k: int| command_table()[k].spec_name())
}

proof fn lemma_command_names_are() 
    ensures
        command_names() == seq![seq!['h', 'e', 'l', 'p'], seq!['l', 'e', 'd'], seq!['i', 'n', 'f', 'o'], seq!['e', 'c', 'h', 'o'], seq!['l', 'o', 'g'], seq!['a', 'u', 't', 'h'], seq!['r', 'e', 'b', 'o', 'o', 't'], seq!['m', 'k', 'd', 'i', 'r'], seq!['c', 'd'], seq!['l', 's'], seq!['c', 'a', 't'], seq!['w', 'i', 'f', 'i'], seq!['s', 'y', 's', '_', 's', 'c', 'a', 'n'], seq!['n', 't', 'p'], seq!['t', 'z']],
{
    reveal_strlit("help");
    assert("help"@ =~= seq!['h', 'e', 'l', 'p']);
    reveal_strlit("led");
    assert("led"@ =~= seq!['l', 'e', 'd']);
    reveal_strlit("info");
    assert("info"@ =~= seq!['i', 'n', 'f', 'o']);
    reveal_strlit("echo");
    assert("echo"@ =~= seq!['e', 'c', 'h', 'o']);
    reveal_strlit("log");
    assert("log"@ =~= seq!['l', 'o', 'g']);
    reveal_strlit("auth");
    assert("auth"@ =~= seq!['a', 'u', 't', 'h']);
    reveal_strlit("reboot");
    assert("reboot"@ =~= seq!['r', 'e', 'b', 'o', 'o', 't']);
    reveal_strlit("mkdir");
    assert("mkdir"@ =~= seq!['m', 'k', 'd', 'i', 'r']);
    reveal_strlit("cd");
    assert("cd"@ =~= seq!['c', 'd']);
    reveal_strlit("ls");
    assert("ls"@ =~= seq!['l', 's']);
    reveal_strlit("cat");
    assert("cat"@ =~= seq!['c', 'a', 't']);
    reveal_strlit("wifi");
    assert("wifi"@ =~= seq!['w', 'i', 'f', 'i']);
    reveal_strlit("sys_scan");
    assert("sys_scan"@ =~= seq!['s', 'y', 's', '_', 's', 'c', 'a', 'n']);
    reveal_strlit("ntp");
    assert("ntp"@ =~= seq!['n', 't', 'p']);
    reveal_strlit("tz");
    assert("tz"@ =~= seq!['t', 'z']);
    assert(command_names() =~= seq![seq!['h', 'e', 'l', 'p'], seq!['l', 'e', 'd'], seq!['i', 'n', 'f', 'o'], seq!['e', 'c', 'h', 'o'], seq!['l', 'o', 'g'], seq!['a', 'u', 't', 'h'], seq!['r', 'e', 'b', 'o', 'o', 't'], seq!['m', 'k', 'd', 'i', 'r'], seq!['c', 'd'], seq!['l', 's'], seq!['c', 'a', 't'], seq!['w', 'i', 'f', 'i'], seq!['s', 'y', 's', '_', 's', 'c', 'a', 'n'], seq!['n', 't', 'p'], seq!['t', 'z']]);
}

/// The position in the table of a command name, told by its first and last characters.
spec fn name_index(n: Seq<char>) -> int {
    let key = (n[0], n.last());
    if key == ('h', 'p') {
        0
    } else if key == ('l', 'd') {
        1
    } else if key == ('i', 'o') {
        2
    } else if key == ('e', 'o') {
        3
    } else if key == ('l', 'g') {
        4
    } else if key == ('a', 'h') {
        5
    } else if key == ('r', 't') {
        6
    } else if key == ('m', 'r') {
        7
    } else if key == ('c', 'd') {
        8
    } else if key == ('l', 's') {
        9
    } else if key == ('c', 't') {
        10
    } else if key == ('w', 'i') {
        11
    } else if key == ('s', 'n') {
        12
    } else if key == ('n', 'p') {
        13
    } else if key == ('t', 'z') {
        14
    } else {
        -1
    }
}

proof fn lemma_name_facts(k: int)
    requires
        0 <= k < 15,
    ensures
        ({
            let n = command_names()[k];
            &&& name_index(n) == k
            &&& n.len() > 0
            &&& utf8_len(n) <= 12
            &&& forall|p: int| 0 <= p < n.len() ==> !crate::text::is_ws(#[trigger] n[p])
        }),
{
    lemma_command_names_are();
    let n = command_names()[k];
    if k == 0 {
        assert(n =~= seq!['h', 'e', 'l', 'p']);
    } else if k == 1 {
        assert(n =~= seq!['l', 'e', 'd']);
    } else if k == 2 {
        assert(n =~= seq!['i', 'n', 'f', 'o']);
    } else if k == 3 {
        assert(n =~= seq!['e', 'c', 'h', 'o']);
    } else if k == 4 {
        assert(n =~= seq!['l', 'o', 'g']);
    } else if k == 5 {
        assert(n =~= seq!['a', 'u', 't', 'h']);
    } else if k == 6 {
        assert(n =~= seq!['r', 'e', 'b', 'o', 'o', 't']);
    } else if k == 7 {
        assert(n =~= seq!['m', 'k', 'd', 'i', 'r']);
    } else if k == 8 {
        assert(n =~= seq!['c', 'd']);
    } else if k == 9 {
        assert(n =~= seq!['l', 's']);
    } else if k == 10 {
        assert(n =~= seq!['c', 'a', 't']);
    } else if k == 11 {
        assert(n =~= seq!['w', 'i', 'f', 'i']);
    } else if k == 12 {
        assert(n =~= seq!['s', 'y', 's', '_', 's', 'c', 'a', 'n']);
    } else if k == 13 {
        assert(n =~= seq!['n', 't', 'p']);
    } else if k == 14 {
        assert(n =~= seq!['t', 'z']);
    }
    assert forall|p: int| 0 <= p < n.len() implies (#[trigger] n[p] as u32) < 0x80
        && !crate::text::is_ws(n[p]) by {
        assert(n.len() <= 8);
        if k == 0 {
            assert(n =~= seq!['h', 'e', 'l', 'p']);
        } else if k == 1 {
            assert(n =~= seq!['l', 'e', 'd']);
        } else if k == 2 {
            assert(n =~= seq!['i', 'n', 'f', 'o']);
        } else if k == 3 {
            assert(n =~= seq!['e', 'c', 'h', 'o']);
        } else if k == 4 {
            assert(n =~= seq!['l', 'o', 'g']);
        } else if k == 5 {
            assert(n =~= seq!['a', 'u', 't', 'h']);
        } else if k == 6 {
            assert(n =~= seq!['r', 'e', 'b', 'o', 'o', 't']);
        } else if k == 7 {
            assert(n =~= seq!['m', 'k', 'd', 'i', 'r']);
        } else if k == 8 {
            assert(n =~= seq!['c', 'd']);
        } else if k == 9 {
            assert(n =~= seq!['l', 's']);
        } else if k == 10 {
            assert(n =~= seq!['c', 'a', 't']);
        } else if k == 11 {
            assert(n =~= seq!['w', 'i', 'f', 'i']);
        } else if k == 12 {
            assert(n =~= seq!['s', 'y', 's', '_', 's', 'c', 'a', 'n']);
        } else if k == 13 {
            assert(n =~= seq!['n', 't', 'p']);
        } else if k == 14 {
            assert(n =~= seq!['t', 'z']);
        }
    }
    crate::text::lemma_ascii_len(n);
}

/// The command names are pairwise distinct, non-empty, free of whitespace and at most 12
/// bytes long, and looking a name up finds its own command.
pub proof fn lemma_command_names()
    ensures
        forall|i: int, j: int|
            0 <= i < j < command_table().len() ==> #[trigger] command_table()[i].spec_name()
                != #[trigger] command_table()[j].spec_name(),
        forall|k: int|
            0 <= k < command_table().len() ==> {
                let n = #[trigger] command_table()[k].spec_name();
                &&& n.len() > 0
                &&& utf8_len(n) <= 12
                &&& forall|p: int| 0 <= p < n.len() ==> !crate::text::is_ws(n[p])
                &&& lookup(n) == Some(command_table()[k])
            },
{
    let t = command_table();
    assert(t.len() == 15);
    assert forall|i: int, j: int| 0 <= i < j < t.len() implies #[trigger] t[i].spec_name()
        != #[trigger] t[j].spec_name() by {
        lemma_name_facts(i);
        lemma_name_facts(j);
        assert(command_names()[i] == t[i].spec_name());
        assert(command_names()[j] == t[j].spec_name());
    }
    assert forall|k: int| 0 <= k < t.len() implies {
        let n = #[trigger] t[k].spec_name();
        &&& n.len() > 0
        &&& utf8_len(n) <= 12
        &&& forall|p: int| 0 <= p < n.len() ==> !crate::text::is_ws(n[p])
        &&& lookup(n) == Some(t[k])
    } by {
        lemma_name_facts(k);
        assert(command_names()[k] == t[k].spec_name());
        lemma_lookup_in_index(t, k);
    }
}

/// In a table whose names are distinct, looking up the name of entry `k` finds entry `k`.
proof fn lemma_lookup_in_index(table: Seq<CommandEnum>, k: int)
    requires
        0 <= k < table.len(),
        forall|i: int, j: int|
            0 <= i < j < table.len() ==> #[trigger] table[i].spec_name() != #[trigger] table[j].spec_name(),
    ensures
        lookup_in(table, table[k].spec_name()) == Some(table[k]),
    decreases k,
{
    if k > 0 {
        let rest = table.drop_first();
        assert(table[0].spec_name() != table[k].spec_name());
        assert forall|i: int, j: int| 0 <= i < j < rest.len() implies #[trigger] rest[i].spec_name()
            != #[trigger] rest[j].spec_name() by {
            assert(rest[i] == table[i + 1]);
            assert(rest[j] == table[j + 1]);
        }
        assert(rest[k - 1] == table[k]);
        lemma_lookup_in_index(rest, k - 1);
    }
}

/// A line whose first word names a command runs that command with the remaining words,
/// unless the network gate refuses it, in which case the refusal is the whole reply.
pub proof fn lemma_dispatch_runs_named(line: Seq<char>, k: int, from_tcp: bool, tcp_authenticated: bool, d: Dispatch)
    requires
        0 <= k < command_table().len(),
        tokens(line).len() > 0,
        tokens(line)[0] == command_table()[k].spec_name(),
        dispatch_spec(line, from_tcp, tcp_authenticated, d),
    ensures
        refused(command_table()[k], from_tcp, tcp_authenticated) ==> (d matches Dispatch::Unauthorized(r)
            && r@ == unauthorized_reply()),
        !refused(command_table()[k], from_tcp, tcp_authenticated) ==> (d matches Dispatch::Run(c, args)
            && c == command_table()[k] && words_view(args@) == tokens(line).drop_first()),
{
    lemma_command_names();
    assert(lookup(command_table()[k].spec_name()) == Some(command_table()[k]));
}

/// A network session that has not authenticated never runs a command that needs
/// authentication; such a line is answered with the refusal.
pub proof fn lemma_unauthenticated_gate(line: Seq<char>, tcp_authenticated: bool, d: Dispatch)
    requires
        !tcp_authenticated,
        dispatch_spec(line, true, tcp_authenticated, d),
    ensures
        d matches Dispatch::Run(c, _) ==> !c.spec_authenticated(),
        (tokens(line).len() > 0 && (lookup(tokens(line)[0]) matches Some(c)
            && c.spec_authenticated())) ==> (d matches Dispatch::Unauthorized(r) && r@
            == unauthorized_reply()),
{
}

/// Commands from the serial console, or from an authenticated session, are never refused.
pub proof fn lemma_no_gate_when_trusted(line: Seq<char>, from_tcp: bool, tcp_authenticated: bool, d: Dispatch)
    requires
        !from_tcp || tcp_authenticated,
        dispatch_spec(line, from_tcp, tcp_authenticated, d),
    ensures
        !(d is Unauthorized),
{
}

/// The commands that run without authentication are exactly `help`, `auth`, `reboot`,
/// `ntp` and `tz`.
pub proof fn lemma_open_commands(c: CommandEnum)
    ensures
        !c.spec_authenticated() <==> (c is Help || c is Auth || c is Reboot || c is Ntp || c is Tz),
{
}


// ---------------------------------------------------------------------------
// Per-command decisions and replies
// ---------------------------------------------------------------------------

fn word_is(w: &String, lit: &str) -> (r: bool)
    ensures
        r == (w@ == lit@),
{
    let v = chars_of(lit);
    str_eq_chars(w.as_str(), v.as_slice())
}

/// `n` spaces.
pub open spec fn spaces(n: nat) -> Seq<char> {
    Seq::new(n, |i: int| ' ')
}

/// One line of the command list: the name padded to 12 bytes, then the description.
pub open spec fn help_line(c: CommandEnum) -> Seq<char> {
    let n = c.spec_name();
    let pad: nat = if utf8_len(n) < 12 {
        (12 - utf8_len(n)) as nat
    } else {
        0
    };
    "  "@ + n + spaces(pad) + " - "@ + c.spec_description() + "\r\n"@
}

pub open spec fn help_body(t: Seq<CommandEnum>) -> Seq<char>
    decreases t.len(),
{
    if t.len() == 0 {
        Seq::empty()
    } else {
        help_body(t.drop_last()) + help_line(t.last())
    }
}

/// The reply of `help`: a header and one line per command, in table order.
pub open spec fn help_reply() -> Seq<char> {
    "Available commands:\r\n"@ + help_body(command_table())
}

/// The reply of `help`.
pub fn help_text() -> (r: String)
    ensures
        r@ == help_reply(),
{
    let mut out: Vec<char> = Vec::new();
    push_lit(&mut out, "Available commands:\r\n");
    let table = commands();
    let mut i: usize = 0;
    assert(command_table().take(0) =~= Seq::<CommandEnum>::empty());
    assert(Seq::<char>::empty() + "Available commands:\r\n"@ =~= "Available commands:\r\n"@);
    while i < table.len()
        invariant
            table@ == command_table(),
            i <= table.len(),
            out@ == "Available commands:\r\n"@ + help_body(command_table().take(i as int)),
        decreases table.len() - i,
    {
        let ghost before = out@;
        let c = &table[i];
        push_lit(&mut out, "  ");
        let name = c.name();
        push_lit(&mut out, name);
        let name_chars = chars_of(name);
        let len = crate::text::utf8_len_of(name_chars.as_slice());
        let pad = 12usize.saturating_sub(len);
        assert(name@ == table@[i as int].spec_name());
        assert(pad == (if utf8_len(name@) < 12 { (12 - utf8_len(name@)) as nat } else { 0nat }));
        let ghost mid = out@;
        let sp = [' '];
        let mut k: usize = 0;
        while k < pad
            invariant
                k <= pad,
                sp@ == seq![' '],
                out@ == mid + spaces(k as nat),
            decreases pad - k,
        {
            append_chars(&mut out, &sp);
            assert(spaces((k + 1) as nat) =~= spaces(k as nat) + seq![' ']);
            k = k + 1;
        }
        push_lit(&mut out, " - ");
        push_lit(&mut out, c.description());
        push_lit(&mut out, "\r\n");
        proof {
            let t = command_table().take(i + 1);
            assert(t.drop_last() =~= command_table().take(i as int));
            assert(t.last() == table@[i as int]);
            assert(out@ =~= before + help_line(table@[i as int]));
        }
        i = i + 1;
    }
    assert(command_table().take(table.len() as int) =~= command_table());
    string_of(out.as_slice())
}

/// What `led` does to the LED (`Some(true)` on, `Some(false)` off) and its reply.
pub open spec fn led_spec(args: Seq<Seq<char>>, level: Option<bool>, reply: Seq<char>) -> bool {
    if args.len() == 0 {
        level is None && reply == "Usage: led <on|off>\r\n"@
    } else if args[0] == "on"@ {
        level == Some(true) && reply == "LED is ON\r\n"@
    } else if args[0] == "off"@ {
        level == Some(false) && reply == "LED is OFF\r\n"@
    } else {
        level is None && reply == "Unknown LED state. Use 'on' or 'off'.\r\n"@
    }
}

/// Decides `led`.
pub fn led_plan(args: &[String]) -> (r: (Option<bool>, String))
    ensures
        led_spec(words_view(args@), r.0, r.1@),
{
    if args.len() == 0 {
        return (None, text("Usage: led <on|off>\r\n"));
    }
    if word_is(&args[0], "on") {
        (Some(true), text("LED is ON\r\n"))
    } else if word_is(&args[0], "off") {
        (Some(false), text("LED is OFF\r\n"))
    } else {
        (None, text("Unknown LED state. Use 'on' or 'off'.\r\n"))
    }
}

/// The words joined by single spaces.
pub open spec fn join_words(w: Seq<Seq<char>>) -> Seq<char>
    decreases w.len(),
{
    if w.len() == 0 {
        Seq::empty()
    } else if w.len() == 1 {
        w[0]
    } else {
        join_words(w.drop_last()) + seq![' '] + w.last()
    }
}

/// The reply of `echo`: the arguments joined by spaces, then a line break.
pub fn echo_text(args: &[String]) -> (r: String)
    ensures
        r@ == join_words(words_view(args@)) + "\r\n"@,
{
    let mut out: Vec<char> = Vec::new();
    let mut i: usize = 0;
    let ghost w = words_view(args@);
    assert(w.take(0) =~= Seq::<Seq<char>>::empty());
    while i < args.len()
        invariant
            i <= args.len(),
            w == words_view(args@),
            i == 0 ==> out@ == Seq::<char>::empty(),
            0 < i < args.len() ==> out@ == join_words(w.take(i as int)) + seq![' '],
            i == args.len() && i > 0 ==> out@ == join_words(w.take(i as int)),
        decreases args.len() - i,
    {
        let ghost before = out@;
        push_lit(&mut out, args[i].as_str());
        proof {
            let t = w.take(i + 1);
            assert(t.drop_last() =~= w.take(i as int));
            assert(t.last() == args@[i as int]@);
            if i == 0 {
                assert(t.len() == 1);
                assert(before + args@[i as int]@ =~= args@[i as int]@);
            }
        }
        if i + 1 < args.len() {
            out.push(' ');
        }
        i = i + 1;
    }
    assert(w.take(args.len() as int) =~= w);
    push_lit(&mut out, "\r\n");
    assert(args.len() == 0 ==> out@ =~= join_words(w) + "\r\n"@);
    string_of(out.as_slice())
}

/// `a.b.c.d`
pub open spec fn dotted(ip: Seq<u8>) -> Seq<char> {
    dec(ip[0] as nat) + seq!['.'] + dec(ip[1] as nat) + seq!['.'] + dec(ip[2] as nat) + seq!['.']
        + dec(ip[3] as nat)
}

/// The station line of `info`.
pub open spec fn mode_line(ssid: Option<Seq<char>>) -> Seq<char> {
    match ssid {
        Some(s) => "Mode: Station (Connected to "@ + s + ")\r\n"@,
        None => "Mode: Setup SoftAP (AP Mode)\r\n"@,
    }
}

/// The address line of `info`.
pub open spec fn ip_line(ip: Option<Seq<u8>>) -> Seq<char> {
    match ip {
        Some(o) => "IP: "@ + dotted(o) + "\r\n"@,
        None => "IP: Not acquired\r\n"@,
    }
}

/// The host-name line of `info`: `pico-` and the passkey, under `.local`.
pub open spec fn host_line(uid: Seq<char>) -> Seq<char> {
    "Hostname: pico-"@ + last_bytes(uid, 6) + ".local\r\n"@
}

/// The lines of `info` before the clock line.
pub open spec fn info_head(uid: Seq<char>, ssid: Option<Seq<char>>, ip: Option<Seq<u8>>) -> Seq<char> {
    "System: Raspberry Pi Pico 2 W\r\n"@ + "CPU: RP2350 (RISC-V/ARM)\r\n"@ + "WiFi/BLE: CYW43439\r\n"@
        + "UID: "@ + uid + "\r\n"@ + mode_line(ssid) + ip_line(ip) + host_line(uid)
}

fn mode_line_exec(ssid: Option<&str>) -> (r: Vec<char>)
    ensures
        r@ == mode_line(opt_text(ssid)),
{
    let mut out: Vec<char> = Vec::new();
    match ssid {
        Some(s) => {
            push_lit(&mut out, "Mode: Station (Connected to ");
            push_lit(&mut out, s);
            push_lit(&mut out, ")\r\n");
        },
        None => {
            push_lit(&mut out, "Mode: Setup SoftAP (AP Mode)\r\n");
        },
    }
    assert(out@ =~= mode_line(opt_text(ssid)));
    out
}

fn ip_line_exec(ip: Option<[u8; 4]>) -> (r: Vec<char>)
    ensures
        r@ == ip_line(opt_ip(ip)),
{
    let mut out: Vec<char> = Vec::new();
    match ip {
        Some(o) => {
            push_lit(&mut out, "IP: ");
            push_dec(&mut out, o[0] as u64);
            out.push('.');
            push_dec(&mut out, o[1] as u64);
            out.push('.');
            push_dec(&mut out, o[2] as u64);
            out.push('.');
            push_dec(&mut out, o[3] as u64);
            push_lit(&mut out, "\r\n");
        },
        None => {
            push_lit(&mut out, "IP: Not acquired\r\n");
        },
    }
    assert(out@ =~= ip_line(opt_ip(ip)));
    out
}

fn host_line_exec(uid: &str) -> (r: Vec<char>)
    requires
        suffix_on_boundary(uid@, 6),
    ensures
        r@ == host_line(uid@),
{
    let mut out: Vec<char> = Vec::new();
    push_lit(&mut out, "Hostname: pico-");
    let u = chars_of(uid);
    let short = last_bytes_of(u.as_slice(), 6);
    append_chars(&mut out, short.as_slice());
    push_lit(&mut out, ".local\r\n");
    assert(out@ =~= host_line(uid@));
    out
}

pub open spec fn opt_text(o: Option<&str>) -> Option<Seq<char>> {
    match o {
        Some(s) => Some(s@),
        None => None,
    }
}

pub open spec fn opt_ip(o: Option<[u8; 4]>) -> Option<Seq<u8>> {
    match o {
        Some(a) => Some(a@),
        None => None,
    }
}

/// The clock line of `info`.
pub open spec fn rtc_line(rtc: Option<DateTime>) -> Seq<char> {
    match rtc {
        Some(dt) => "RTC Time: "@ + datetime_text(dt) + "\r\n"@,
        None => "RTC Time: Not synchronized\r\n"@,
    }
}

/// The reply of `info`: the lines before the clock line, and the clock line.  When the
/// clock is set and a time-zone offset is stored, the offset line goes between the two.
pub fn info_report(uid: &str, ssid: Option<&str>, ip: Option<[u8; 4]>, rtc: Option<DateTime>) -> (r: (String, String))
    requires
        suffix_on_boundary(uid@, 6),
    ensures
        r.0@ == info_head(uid@, opt_text(ssid), opt_ip(ip)),
        r.1@ == rtc_line(rtc),
{
    let mut out: Vec<char> = Vec::new();
    push_lit(&mut out, "System: Raspberry Pi Pico 2 W\r\n");
    push_lit(&mut out, "CPU: RP2350 (RISC-V/ARM)\r\n");
    push_lit(&mut out, "WiFi/BLE: CYW43439\r\n");
    push_lit(&mut out, "UID: ");
    push_lit(&mut out, uid);
    push_lit(&mut out, "\r\n");
    let m = mode_line_exec(ssid);
    append_chars(&mut out, m.as_slice());
    let ipl = ip_line_exec(ip);
    append_chars(&mut out, ipl.as_slice());
    let h = host_line_exec(uid);
    append_chars(&mut out, h.as_slice());
    assert(out@ =~= info_head(uid@, opt_text(ssid), opt_ip(ip)));
    let mut line: Vec<char> = Vec::new();
    match rtc {
        Some(dt) => {
            push_lit(&mut line, "RTC Time: ");
            push_datetime(&mut line, &dt);
            push_lit(&mut line, "\r\n");
        },
        None => {
            push_lit(&mut line, "RTC Time: Not synchronized\r\n");
        },
    }
    assert(line@ =~= rtc_line(rtc));
    (string_of(out.as_slice()), string_of(line.as_slice()))
}

/// Name of a log level.
pub open spec fn level_name(level: u8) -> Seq<char> {
    if level == 0 {
        "error"@
    } else if level == 1 {
        "warn"@
    } else if level == 2 {
        "info"@
    } else if level == 3 {
        "debug"@
    } else if level == 4 {
        "trace"@
    } else {
        "unknown"@
    }
}

/// Name of a log level.
pub fn level_name_of(level: u8) -> (r: &'static str)
    ensures
        r@ == level_name(level),
{
    if level == 0 {
        "error"
    } else if level == 1 {
        "warn"
    } else if level == 2 {
        "info"
    } else if level == 3 {
        "debug"
    } else if level == 4 {
        "trace"
    } else {
        "unknown"
    }
}

/// The level a name selects.
pub open spec fn level_of_name(w: Seq<char>) -> Option<u8> {
    if w == "error"@ {
        Some(0)
    } else if w == "warn"@ {
        Some(1)
    } else if w == "info"@ {
        Some(2)
    } else if w == "debug"@ {
        Some(3)
    } else if w == "trace"@ {
        Some(4)
    } else {
        None
    }
}

/// Naming a level and choosing a level by name are inverse: each of the five levels 0..=4
/// is chosen by its own name and by no other word, and `log <name>` sets exactly that level
/// (and `log` without arguments then reports that name).
pub proof fn lemma_level_names(n: u8, w: Seq<char>, current: u8, a: LogAction, reply: Seq<char>)
    requires
        n <= 4,
    ensures
        level_of_name(level_name(n)) == Some(n),
        level_of_name(w) == Some(n) ==> w == level_name(n),
        log_spec(seq![level_name(n)], current, a, reply) ==> a == LogAction::SetLevel(n),
{
    reveal_strlit("error");
    reveal_strlit("warn");
    reveal_strlit("info");
    reveal_strlit("debug");
    reveal_strlit("trace");
    reveal_strlit("print");
    reveal_strlit("clear");
    reveal_strlit("record");
    let names = seq!["error"@, "warn"@, "info"@, "debug"@, "trace"@];
    assert("error"@ =~= seq!['e', 'r', 'r', 'o', 'r']);
    assert("warn"@ =~= seq!['w', 'a', 'r', 'n']);
    assert("info"@ =~= seq!['i', 'n', 'f', 'o']);
    assert("debug"@ =~= seq!['d', 'e', 'b', 'u', 'g']);
    assert("trace"@ =~= seq!['t', 'r', 'a', 'c', 'e']);
    assert("print"@ =~= seq!['p', 'r', 'i', 'n', 't']);
    assert("clear"@ =~= seq!['c', 'l', 'e', 'a', 'r']);
    assert("record"@ =~= seq!['r', 'e', 'c', 'o', 'r', 'd']);
    let ln = level_name(n);
    assert(ln != "print"@) by {
        if ln == "print"@ {
            assert(ln[0] == 'p');
        }
    }
    assert(ln != "clear"@) by {
        if ln == "clear"@ {
            assert(ln[0] == 'c');
        }
    }
    assert(ln != "record"@) by {
        if ln == "record"@ {
            assert(ln.len() == 6);
        }
    }
    if n == 0 {
        assert("error"@ != "warn"@ && "error"@ != "info"@ && "error"@ != "debug"@ && "error"@ != "trace"@) by {
            assert("error"@[0] == 'e');
        }
    }
    if level_of_name(w) == Some(n) {
        if w == "error"@ {
        } else if w == "warn"@ {
            assert(w[0] == 'w');
        } else if w == "info"@ {
            assert(w[0] == 'i');
        } else if w == "debug"@ {
            assert(w[0] == 'd');
        } else {
            assert(w[0] == 't');
        }
    }
    let args = seq![level_name(n)];
    assert(args[0] == ln);
}

/// The message `log record` stores: the words joined by spaces in a 256-byte buffer, each
/// space and word appended only when it fits.
pub open spec fn record_message(words: Seq<Seq<char>>) -> Seq<char>
    decreases words.len(),
{
    if words.len() == 0 {
        Seq::empty()
    } else {
        let prev = record_message(words.drop_last());
        let with_sep = if words.len() > 1 {
            bpush(prev, seq![' '], 256)
        } else {
            prev
        };
        bpush(with_sep, words.last(), 256)
    }
}

/// What `log` does.
pub enum LogAction {
    /// Report the current level.
    ShowLevel,
    /// Print the stored log.
    Print,
    /// Delete the stored log.
    Clear,
    /// Append a message to the stored log.
    Record(String),
    /// `log record` without a message.
    RecordUsage,
    /// Set the level.
    SetLevel(u8),
    /// Unknown subcommand or level.
    Invalid,
}

/// The decision and reply of `log` for the arguments and the current level.
pub open spec fn log_spec(args: Seq<Seq<char>>, level: u8, a: LogAction, reply: Seq<char>) -> bool {
    if args.len() == 0 {
        a is ShowLevel && reply == "Current log level: "@ + level_name(level) + "\r\n"@
    } else if args[0] == "print"@ {
        a is Print && reply.len() == 0
    } else if args[0] == "clear"@ {
        a is Clear && reply == "Log cleared.\r\n"@
    } else if args[0] == "record"@ {
        if args.len() > 1 {
            (a matches LogAction::Record(m) && m@ == record_message(args.drop_first())) && reply
                == "Log recorded.\r\n"@
        } else {
            a is RecordUsage && reply == "Usage: log record <message>\r\n"@
        }
    } else {
        match level_of_name(args[0]) {
            Some(n) => a == LogAction::SetLevel(n) && reply == "Log level set to "@ + args[0]
                + "\r\n"@,
            None => a is Invalid && reply
                == "Invalid use. Subcommands: print, clear, record. Levels: error, warn, info, debug, trace\r\n"@,
        }
    }
}

fn record_message_exec(args: &[String]) -> (r: String)
    requires
        args.len() > 1,
    ensures
        r@ == record_message(words_view(args@).drop_first()),
{
    let ghost w = words_view(args@).drop_first();
    let mut msg: Vec<char> = Vec::new();
    let mut i: usize = 1;
    assert(w.take(0) =~= Seq::<Seq<char>>::empty());
    while i < args.len()
        invariant
            1 <= i <= args.len(),
            w == words_view(args@).drop_first(),
            msg@ == record_message(w.take(i - 1)),
        decreases args.len() - i,
    {
        if i > 1 {
            let sp = [' '];
            assert(sp@ =~= seq![' ']);
            bpush_exec(&mut msg, &sp, 256);
        }
        let a = chars_of(args[i].as_str());
        bpush_exec(&mut msg, a.as_slice(), 256);
        proof {
            let t = w.take(i as int);
            assert(t.drop_last() =~= w.take(i - 1));
            assert(t.last() == args@[i as int]@);
        }
        i = i + 1;
    }
    assert(w.take(args.len() - 1) =~= w);
    string_of(msg.as_slice())
}

/// Decides `log` for the arguments and the current level.
pub fn log_plan(args: &[String], level: u8) -> (r: (LogAction, String))
    ensures
        log_spec(words_view(args@), level, r.0, r.1@),
{
    if args.len() == 0 {
        let mut out = text("Current log level: ");
        push_str(&mut out, level_name_of(level));
        push_str(&mut out, "\r\n");
        return (LogAction::ShowLevel, out);
    }
    if word_is(&args[0], "print") {
        return (LogAction::Print, String::new());
    }
    if word_is(&args[0], "clear") {
        return (LogAction::Clear, text("Log cleared.\r\n"));
    }
    if word_is(&args[0], "record") {
        if args.len() > 1 {
            let m = record_message_exec(args);
            return (LogAction::Record(m), text("Log recorded.\r\n"));
        } else {
            return (LogAction::RecordUsage, text("Usage: log record <message>\r\n"));
        }
    }
    let level_sel: Option<u8> = if word_is(&args[0], "error") {
        Some(0)
    } else if word_is(&args[0], "warn") {
        Some(1)
    } else if word_is(&args[0], "info") {
        Some(2)
    } else if word_is(&args[0], "debug") {
        Some(3)
    } else if word_is(&args[0], "trace") {
        Some(4)
    } else {
        None
    };
    match level_sel {
        Some(n) => {
            let mut out = text("Log level set to ");
            push_str(&mut out, args[0].as_str());
            push_str(&mut out, "\r\n");
            (LogAction::SetLevel(n), out)
        },
        None => (
            LogAction::Invalid,
            text(
                "Invalid use. Subcommands: print, clear, record. Levels: error, warn, info, debug, trace\r\n",
            ),
        ),
    }
}

/// Outcome of `auth`.
pub enum AuthOutcome {
    /// No passkey given.
    Usage,
    /// The passkey matches: the network session becomes authenticated.
    Granted,
    /// The passkey does not match.
    Denied,
}

/// The passkey for a device UID: its last 6 bytes (all of it when shorter).
pub open spec fn passkey(uid: Seq<char>) -> Seq<char> {
    last_bytes(uid, 6)
}

pub open spec fn auth_spec(args: Seq<Seq<char>>, uid: Seq<char>, o: AuthOutcome, reply: Seq<char>) -> bool {
    if args.len() == 0 {
        o is Usage && reply == "Usage: auth <passkey>\r\n"@
    } else if args[0] == passkey(uid) {
        o is Granted && reply == "Authentication successful. Shell unlocked.\r\n"@
    } else {
        o is Denied && reply == "Authentication failed. Incorrect passkey.\r\n"@
    }
}

/// Decides `auth` for a device UID.  A UID whose last 6 bytes would split a character
/// aborts the device, so such UIDs are left out.
pub fn auth_plan(args: &[String], uid: &str) -> (r: (AuthOutcome, String))
    requires
        suffix_on_boundary(uid@, 6),
    ensures
        auth_spec(words_view(args@), uid@, r.0, r.1@),
{
    if args.len() == 0 {
        return (AuthOutcome::Usage, text("Usage: auth <passkey>\r\n"));
    }
    let u = chars_of(uid);
    let key = last_bytes_of(u.as_slice(), 6);
    if str_eq_chars(args[0].as_str(), key.as_slice()) {
        (AuthOutcome::Granted, text("Authentication successful. Shell unlocked.\r\n"))
    } else {
        (AuthOutcome::Denied, text("Authentication failed. Incorrect passkey.\r\n"))
    }
}

/// The working directory shown for a stored one: `/` when none is stored.
pub open spec fn pwd_spec(stored: Seq<char>) -> Seq<char> {
    if stored.len() == 0 {
        seq!['/']
    } else {
        stored
    }
}

/// The working directory shown for a stored one.
pub fn pwd(stored: &str) -> (r: String)
    ensures
        r@ == pwd_spec(stored@),
{
    if stored.is_empty() {
        let v = ['/'];
        assert(v@ =~= seq!['/']);
        string_of(&v)
    } else {
        text(stored)
    }
}

/// The file-system form of a resolved path: without its leading `/`, except for `/` itself.
pub open spec fn lfs_path(p: Seq<char>) -> Seq<char> {
    if p.len() > 0 && p[0] == '/' && utf8_len(p) > 1 {
        p.drop_first()
    } else {
        p
    }
}

/// The file-system form of a resolved path.
pub fn lfs_path_str(p: &str) -> (r: String)
    ensures
        r@ == lfs_path(p@),
{
    let v = chars_of(p);
    let n = crate::text::utf8_len_of(v.as_slice());
    if v.len() > 0 && v[0] == '/' && n > 1 {
        let t = crate::text::subrange_chars(v.as_slice(), 1, v.len());
        assert(t@ =~= p@.drop_first());
        string_of(t.as_slice())
    } else {
        string_of(v.as_slice())
    }
}

/// The decision of a command that works on one path.
pub enum FsPlan {
    /// No path was given; the reply shows the usage.
    Usage(String),
    /// Work on this path: the resolved path and its file-system form.
    Target(String, String),
}

pub open spec fn fs_plan_spec(args: Seq<Seq<char>>, cwd: Seq<char>, usage: Seq<char>, p: FsPlan) -> bool {
    if args.len() == 0 {
        p matches FsPlan::Usage(u) && u@ == usage
    } else {
        p matches FsPlan::Target(r, l) && r@ == resolve_path(cwd, args[0]) && l@ == lfs_path(r@)
    }
}

fn fs_plan(args: &[String], cwd: &str, usage: &str) -> (p: FsPlan)
    ensures
        fs_plan_spec(words_view(args@), cwd@, usage@, p),
{
    if args.len() == 0 {
        FsPlan::Usage(text(usage))
    } else {
        let r = resolve_path_str(cwd, args[0].as_str());
        let l = lfs_path_str(r.as_str());
        FsPlan::Target(r, l)
    }
}

/// Decides `mkdir` in the working directory `cwd`.
pub fn mkdir_plan(args: &[String], cwd: &str) -> (p: FsPlan)
    ensures
        fs_plan_spec(words_view(args@), cwd@, "Usage: mkdir <path>\r\n"@, p),
{
    fs_plan(args, cwd, "Usage: mkdir <path>\r\n")
}

/// Decides `cd` in the working directory `cwd`.  The new working directory is the
/// resolved path, once it is `/` or an existing directory.
pub fn cd_plan(args: &[String], cwd: &str) -> (p: FsPlan)
    ensures
        fs_plan_spec(words_view(args@), cwd@, "Usage: cd <path>\r\n"@, p),
{
    fs_plan(args, cwd, "Usage: cd <path>\r\n")
}

/// Decides `cat` in the working directory `cwd`.
pub fn cat_plan(args: &[String], cwd: &str) -> (p: FsPlan)
    ensures
        fs_plan_spec(words_view(args@), cwd@, "Usage: cat <path>\r\n"@, p),
{
    fs_plan(args, cwd, "Usage: cat <path>\r\n")
}

/// Decides `ls` in the working directory `cwd`: the given path, or the working directory.
pub fn ls_plan(args: &[String], cwd: &str) -> (r: (String, String))
    ensures
        r.0@ == resolve_path(cwd@, if args.len() == 0 { cwd@ } else { args@[0]@ }),
        r.1@ == lfs_path(r.0@),
{
    let target: &str = if args.len() == 0 {
        cwd
    } else {
        args[0].as_str()
    };
    let r = resolve_path_str(cwd, target);
    let l = lfs_path_str(r.as_str());
    (r, l)
}

/// Whether a resolved path is the root, which needs no directory check for `cd`.
pub fn is_root(p: &str) -> (r: bool)
    ensures
        r == (p@ == seq!['/']),
{
    let v = ['/'];
    assert(v@ =~= seq!['/']);
    str_eq_chars(p, &v)
}

/// Line heading a directory listing, written into a 128-byte buffer.
pub open spec fn ls_header(resolved: Seq<char>) -> Seq<char> {
    fmt_pieces(Seq::empty(), seq!["Directory of "@, resolved, ":\r\n"@], 128)
}

/// Line heading a directory listing.
pub fn ls_header_text(resolved: &str) -> (r: String)
    ensures
        r@ == ls_header(resolved@),
{
    let mut pieces: Vec<Vec<char>> = Vec::new();
    pieces.push(chars_of("Directory of "));
    pieces.push(chars_of(resolved));
    pieces.push(chars_of(":\r\n"));
    assert(views(pieces@) =~= seq!["Directory of "@, resolved@, ":\r\n"@]);
    let v = fmt_concat(&pieces, 128);
    string_of(v.as_slice())
}

/// Reply of `cat` on a directory, written into a 64-byte buffer.
pub open spec fn cat_dir_error(path: Seq<char>) -> Seq<char> {
    fmt_pieces(Seq::empty(), seq!["error: "@, path, " is a directory\r\n"@], 64)
}

/// Reply of `cat` on a directory.
pub fn cat_dir_error_text(path: &str) -> (r: String)
    ensures
        r@ == cat_dir_error(path@),
{
    let mut pieces: Vec<Vec<char>> = Vec::new();
    pieces.push(chars_of("error: "));
    pieces.push(chars_of(path));
    pieces.push(chars_of(" is a directory\r\n"));
    assert(views(pieces@) =~= seq!["error: "@, path@, " is a directory\r\n"@]);
    let v = fmt_concat(&pieces, 64);
    string_of(v.as_slice())
}

/// One entry of a directory listing.
pub struct DirEntryInfo {
    pub name: String,
    pub is_dir: bool,
    pub size: usize,
}

/// Most entries shown by one listing.
pub const MAX_LISTED: usize = 32;

/// Records a directory entry: its name is kept when it fits 64 bytes (otherwise it is
/// empty), and the entry is added while fewer than 32 are held.
pub fn push_dir_entry(entries: &mut Vec<DirEntryInfo>, name: &str, is_dir: bool, size: usize)
    ensures
        old(entries).len() < 32 ==> final(entries)@.len() == old(entries)@.len() + 1,
        old(entries).len() < 32 ==> final(entries)@.drop_last() == old(entries)@,
        old(entries).len() < 32 ==> final(entries)@.last().name@ == fit(name@, 64),
        old(entries).len() < 32 ==> final(entries)@.last().is_dir == is_dir,
        old(entries).len() < 32 ==> final(entries)@.last().size == size,
        old(entries).len() >= 32 ==> final(entries)@ == old(entries)@,
{
    if entries.len() < MAX_LISTED {
        let mut n: Vec<char> = Vec::new();
        let v = chars_of(name);
        bpush_exec(&mut n, v.as_slice(), 64);
        assert(Seq::<char>::empty() + name@ =~= name@);
        entries.push(DirEntryInfo { name: string_of(n.as_slice()), is_dir, size });
    }
}

/// The line for one listed entry, written into a 128-byte buffer.
pub open spec fn ls_entry_line(name: Seq<char>, is_dir: bool, size: usize) -> Seq<char> {
    if is_dir {
        fmt_pieces(Seq::empty(), seq!["[DIR]  "@, name, "\r\n"@], 128)
    } else {
        fmt_pieces(
            Seq::empty(),
            seq!["[FILE] "@, name, " ("@, dec(size as nat), " bytes)\r\n"@],
            128,
        )
    }
}

/// The line for one listed entry.
pub fn ls_entry_text(e: &DirEntryInfo) -> (r: String)
    ensures
        r@ == ls_entry_line(e.name@, e.is_dir, e.size),
{
    let mut pieces: Vec<Vec<char>> = Vec::new();
    if e.is_dir {
        pieces.push(chars_of("[DIR]  "));
        pieces.push(chars_of(e.name.as_str()));
        pieces.push(chars_of("\r\n"));
        assert(views(pieces@) =~= seq!["[DIR]  "@, e.name@, "\r\n"@]);
    } else {
        pieces.push(chars_of("[FILE] "));
        pieces.push(chars_of(e.name.as_str()));
        pieces.push(chars_of(" ("));
        let mut d: Vec<char> = Vec::new();
        push_dec(&mut d, e.size as u64);
        assert(d@ =~= dec(e.size as nat));
        pieces.push(d);
        pieces.push(chars_of(" bytes)\r\n"));
        assert(views(pieces@) =~= seq!["[FILE] "@, e.name@, " ("@, dec(e.size as nat), " bytes)\r\n"@]);
    }
    let v = fmt_concat(&pieces, 128);
    string_of(v.as_slice())
}

/// `wifi reset` was asked for.
pub fn wifi_reset_requested(args: &[String]) -> (r: bool)
    ensures
        r == (args.len() > 0 && args@[0]@ == "reset"@),
{
    args.len() > 0 && word_is(&args[0], "reset")
}

/// What `ntp` does.
pub enum NtpAction {
    /// Show the stored server.
    Show,
    /// Store this server.
    Save(String),
    /// `ntp set` without a server.
    SaveUsage,
    /// Unknown subcommand.
    Unknown,
}

pub open spec fn ntp_spec(args: Seq<Seq<char>>, a: NtpAction) -> bool {
    if args.len() == 0 {
        a is Show
    } else if args[0] == "set"@ {
        if args.len() > 1 {
            a matches NtpAction::Save(s) && s@ == args[1]
        } else {
            a is SaveUsage
        }
    } else {
        a is Unknown
    }
}

/// Decides `ntp`.
pub fn ntp_plan(args: &[String]) -> (a: NtpAction)
    ensures
        ntp_spec(words_view(args@), a),
{
    if args.len() == 0 {
        NtpAction::Show
    } else if word_is(&args[0], "set") {
        if args.len() > 1 {
            NtpAction::Save(text(args[1].as_str()))
        } else {
            NtpAction::SaveUsage
        }
    } else {
        NtpAction::Unknown
    }
}

/// Reply of `ntp` without arguments, for the stored server if any.
pub fn ntp_show_text(server: Option<&str>) -> (r: String)
    ensures
        r@ == match server {
            Some(s) => "Current NTP Server: "@ + s@ + "\r\n"@,
            None => "NTP Server: Not configured (using pool.ntp.org)\r\n"@,
        },
{
    match server {
        Some(s) => {
            let mut out = text("Current NTP Server: ");
            push_str(&mut out, s);
            push_str(&mut out, "\r\n");
            out
        },
        None => text("NTP Server: Not configured (using pool.ntp.org)\r\n"),
    }
}

/// `tz set <hours>` was asked for: the hours argument; otherwise the offset is shown.
pub fn tz_set_argument(args: &[String]) -> (r: Option<String>)
    ensures
        match r {
            Some(h) => args.len() >= 2 && args@[0]@ == "set"@ && h@ == args@[1]@,
            None => !(args.len() >= 2 && args@[0]@ == "set"@),
        },
{
    if args.len() >= 2 && word_is(&args[0], "set") {
        Some(text(args[1].as_str()))
    } else {
        None
    }
}

/// The local-time line shown by `tz`.
pub fn local_time_line(dt: &DateTime) -> (r: String)
    ensures
        r@ == "Current Local Time: "@ + datetime_text(*dt) + "\r\n"@,
{
    let mut out: Vec<char> = Vec::new();
    push_lit(&mut out, "Current Local Time: ");
    push_datetime(&mut out, dt);
    push_lit(&mut out, "\r\n");
    assert(out@ =~= "Current Local Time: "@ + datetime_text(*dt) + "\r\n"@);
    string_of(out.as_slice())
}

/// Capacity of the buffer that collects a command's output, in bytes.
pub const OUTPUT_BUFFER_CAP: usize = 2048;

/// Output written to a collecting buffer: kept when it is UTF-8 and the buffer has room for
/// all of it, dropped otherwise.
pub open spec fn buffered(acc: Seq<char>, bytes: Seq<u8>) -> Seq<char> {
    if valid_utf8(bytes) {
        bpush(acc, decode_utf8(bytes), OUTPUT_BUFFER_CAP as nat)
    } else {
        acc
    }
}

/// Writes output bytes into a collecting buffer.
pub fn buffer_output(buf: &mut String, bytes: &[u8])
    ensures
        final(buf)@ == buffered(old(buf)@, bytes@),
{
    match decode_chars(bytes) {
        Some(d) => {
            let mut v = chars_of(buf.as_str());
            bpush_exec(&mut v, d.as_slice(), OUTPUT_BUFFER_CAP);
            *buf = string_of(v.as_slice());
        },
        None => {},
    }
}

/// The collecting buffer never grows past its capacity.
pub proof fn lemma_buffered_bounded(acc: Seq<char>, bytes: Seq<u8>)
    requires
        utf8_len(acc) <= OUTPUT_BUFFER_CAP,
    ensures
        utf8_len(buffered(acc, bytes)) <= OUTPUT_BUFFER_CAP,
{
    if valid_utf8(bytes) {
        crate::text::lemma_bpush_bounded(acc, decode_utf8(bytes), OUTPUT_BUFFER_CAP as nat);
    }
}

/// The message of `log record` never exceeds its 256-byte buffer.
pub proof fn lemma_record_message_bounded(words: Seq<Seq<char>>)
    ensures
        utf8_len(record_message(words)) <= 256,
    decreases words.len(),
{
    if words.len() == 0 {
        assert(utf8_len(Seq::<char>::empty()) == 0);
    } else {
        lemma_record_message_bounded(words.drop_last());
        let prev = record_message(words.drop_last());
        crate::text::lemma_bpush_bounded(prev, seq![' '], 256);
        let with_sep = if words.len() > 1 {
            bpush(prev, seq![' '], 256)
        } else {
            prev
        };
        crate::text::lemma_bpush_bounded(with_sep, words.last(), 256);
    }
}

} // verus!
