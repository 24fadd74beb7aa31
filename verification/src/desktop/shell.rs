//! The shell: one process with the service and the tray, and another one with the
//! window while there is one.

use vstd::prelude::*;
use vstd::string::*;
use crate::text;

verus! {

/// The argument of the process with the window.
pub const UI_FLAG: &'static str = "--ui";

/// The argument of a start with the machine.
pub const AUTOSTART_FLAG: &'static str = "--autostart";

/// Whether an argument is among others.
pub open spec fn has_arg(args: Seq<String>, flag: Seq<char>) -> bool {
    exists|i: int| 0 <= i < args.len() && (#[trigger] args[i])@ == flag
}

fn find_arg(args: &Vec<String>, flag: &str) -> (r: bool)
    ensures
        r == has_arg(args@, flag@),
{
    let n: usize = args.len();
    let mut i: usize = 0;
    while i < n
        invariant
            i <= n == args@.len(),
            forall|j: int| 0 <= j < i ==> (#[trigger] args@[j])@ != flag@,
        decreases n - i,
    {
        if text::str_eq(args[i].as_str(), flag) {
            return true;
        }
        i = i + 1;
    }
    false
}

/// Whether a process is the one with the window.
pub fn is_ui_process(args: &Vec<String>) -> (r: bool)
    ensures
        r == has_arg(args@, "--ui"@),
{
    find_arg(args, UI_FLAG)
}

/// Whether a start shows no window: only one with the machine, and only where that is
/// wanted.
pub fn starts_silently(args: &Vec<String>, silent_start: bool) -> (r: bool)
    ensures
        r == (has_arg(args@, "--autostart"@) && silent_start),
{
    find_arg(args, AUTOSTART_FLAG) && silent_start
}

/// The process with the service.
#[derive(Debug)]
pub struct Resident {
    /// The port of the service, zero until there is one.
    pub actual_port: u16,
    pub admin_key: Option<String>,
    /// Why the service did not start.
    pub startup_error: Option<String>,
    /// Whether a process with the window was started and is not known to be gone.
    pub has_child: bool,
}

/// What is to be done to show the window.
#[derive(Debug)]
pub enum UiAction {
    /// There is nothing to show yet.
    Wait,
    /// The window is there, and is to come to the front.
    Focus,
    /// A process with the window is to be started, with this in its environment.
    Spawn { port: u16, admin_key: Option<String>, error: Option<String> },
}

impl Resident {
    /// Before the service has started.
    pub fn new() -> (r: Self)
        ensures
            r == (Resident {
                actual_port: 0,
                admin_key: None,
                startup_error: None,
                has_child: false,
            }),
    {
        Resident { actual_port: 0, admin_key: None, startup_error: None, has_child: false }
    }

    /// The service has started; tells whether the window is to be shown.
    pub fn started(&mut self, port: u16, admin_key: Option<String>, silent: bool) -> (r: bool)
        ensures
            *final(self) == (Resident { actual_port: port, admin_key, ..*old(self) }),
            r == !silent,
    {
        self.actual_port = port;
        self.admin_key = admin_key;
        !silent
    }

    /// The service did not start. The window is to be shown, with the error.
    pub fn failed(&mut self, error: String)
        ensures
            *final(self) == (Resident { startup_error: Some(error), ..*old(self) }),
    {
        self.startup_error = Some(error);
    }

    /// What is to be done to show the window, given whether the process with it, if one
    /// was started, still runs.
    pub fn spawn_or_focus_ui(&mut self, child_runs: bool) -> (r: UiAction)
        ensures
            if old(self).actual_port == 0 && old(self).startup_error is None {
                r is Wait && *final(self) == *old(self)
            } else if old(self).has_child && child_runs {
                r is Focus && *final(self) == *old(self)
            } else {
                &&& *final(self) == (Resident { has_child: false, ..*old(self) })
                &&& r is Spawn
                &&& r->port == old(self).actual_port
                &&& text::opt_view(r->admin_key) == text::opt_view(old(self).admin_key)
                &&& text::opt_view(r->error) == text::opt_view(old(self).startup_error)
            },
    {
        if self.actual_port == 0 && self.startup_error.is_none() {
            return UiAction::Wait;
        }
        if self.has_child && child_runs {
            return UiAction::Focus;
        }
        self.has_child = false;
        UiAction::Spawn {
            port: self.actual_port,
            admin_key: text::clone_opt(&self.admin_key),
            error: text::clone_opt(&self.startup_error),
        }
    }

    /// A process with the window was started.
    pub fn child_started(&mut self)
        ensures
            *final(self) == (Resident { has_child: true, ..*old(self) }),
    {
        self.has_child = true;
    }

    /// What is to be done when the process with the window was looked at.
    pub fn watch_child(&mut self, status: ChildStatus) -> (r: WatchAction)
        ensures
            !old(self).has_child ==> r == WatchAction::Stop && *final(self) == *old(self),
            old(self).has_child ==> *final(self) == (Resident {
                has_child: status == ChildStatus::Running,
                ..*old(self)
            }),
            old(self).has_child ==> r == match status {
                ChildStatus::Running => WatchAction::GoOn,
                ChildStatus::Exited => WatchAction::GoToBackground,
                ChildStatus::Unknown => WatchAction::Stop,
            },
    {
        if !self.has_child {
            return WatchAction::Stop;
        }
        match status {
            ChildStatus::Running => WatchAction::GoOn,
            ChildStatus::Exited => {
                self.has_child = false;
                WatchAction::GoToBackground
            },
            ChildStatus::Unknown => {
                self.has_child = false;
                WatchAction::Stop
            },
        }
    }
}

/// How a process fares.
#[derive(Debug, Clone, Copy, PartialEq, Eq, Structural)]
pub enum ChildStatus {
    Running,
    Exited,
    Unknown,
}

/// What is to be done next about the process with the window.
#[derive(Debug, Clone, Copy, PartialEq, Eq, Structural)]
pub enum WatchAction {
    GoOn,
    /// Look no more, and leave the dock.
    GoToBackground,
    Stop,
}

/// Whether the process stays although it is asked to end: it ends only where a code is
/// given.
pub fn prevents_exit(code: Option<i32>) -> (r: bool)
    ensures
        r == (code is None),
{
    code.is_none()
}

/// The entries of the tray's menu.
#[derive(Debug, Clone, Copy, PartialEq, Eq, Structural)]
pub enum MenuAction {
    Show,
    ToggleAutostart,
    ToggleSilentStart,
    Quit,
    Nothing,
}

/// The entry of the tray's menu that an id stands for.
pub fn menu_action(id: &str) -> (r: MenuAction)
    ensures
        r == if id@ == "show"@ {
            MenuAction::Show
        } else if id@ == "autostart"@ {
            MenuAction::ToggleAutostart
        } else if id@ == "silent_start"@ {
            MenuAction::ToggleSilentStart
        } else if id@ == "quit"@ {
            MenuAction::Quit
        } else {
            MenuAction::Nothing
        },
{
    if text::str_eq(id, "show") {
        MenuAction::Show
    } else if text::str_eq(id, "autostart") {
        MenuAction::ToggleAutostart
    } else if text::str_eq(id, "silent_start") {
        MenuAction::ToggleSilentStart
    } else if text::str_eq(id, "quit") {
        MenuAction::Quit
    } else {
        MenuAction::Nothing
    }
}

/// Whether the start with the machine is on after it was switched over, given whether
/// that succeeded.
pub fn autostart_after_toggle(enabled: bool, succeeded: bool) -> (r: bool)
    ensures
        r == if succeeded {
            !enabled
        } else {
            enabled
        },
{
    if succeeded {
        !enabled
    } else {
        enabled
    }
}

/// How the start with the machine is to be changed, if at all.
pub fn autostart_change(wanted: bool, enabled: bool) -> (r: Option<bool>)
    ensures
        r == if wanted == enabled {
            None
        } else {
            Some(wanted)
        },
{
    if wanted == enabled {
        None
    } else {
        Some(wanted)
    }
}

/// The port that a text gives.
pub open spec fn port_of(s: Seq<char>) -> Option<nat> {
    match text::number_of(s) {
        Some(n) => if n <= 65535 {
            Some(n)
        } else {
            None
        },
        None => None,
    }
}

fn parse_port(s: &str) -> (r: Option<u16>)
    ensures
        (match r {
            Some(p) => Some(p as nat),
            None => None,
        }) == port_of(s@),
{
    match text::parse_u64(s) {
        Some(n) => if n <= 65535 {
            Some(n as u16)
        } else {
            None
        },
        None => None,
    }
}

/// The port on which the window's process listens, from the file in which it left it.
pub fn control_port(content: &str) -> (r: Option<u16>)
    ensures
        (match r {
            Some(p) => Some(p as nat),
            None => None,
        }) == port_of(text::trim(content@)),
{
    let t: String = text::trimmed(content);
    parse_port(t.as_str())
}

/// Whether a line asks the window to come to the front.
pub fn asks_for_focus(line: &str) -> (r: bool)
    ensures
        r == (text::trim(line@) == "focus"@),
{
    let t: String = text::trimmed(line);
    text::str_eq(t.as_str(), "focus")
}

/// The port that the environment gives the window's process, or zero.
pub fn ui_port(value: Option<&str>) -> (r: u16)
    ensures
        r == match value {
            Some(s) => match port_of(s@) {
                Some(n) => n,
                None => 0,
            },
            None => 0,
        },
{
    match value {
        Some(s) => match parse_port(s) {
            Some(p) => p,
            None => 0,
        },
        None => 0,
    }
}

/// The error that the environment gives the window's process, unless it is empty.
pub fn ui_error(value: Option<String>) -> (r: Option<String>)
    ensures
        text::opt_view(r) == match value {
            Some(s) => if s@.len() == 0 {
                None
            } else {
                Some(s@)
            },
            None => None,
        },
{
    match value {
        Some(s) => if s.as_str().is_empty() {
            None
        } else {
            Some(s)
        },
        None => None,
    }
}

/// The ports as they are shown.
#[derive(Debug, Clone, Copy, PartialEq, Eq, Structural)]
pub struct PortStatus {
    pub configured: u16,
    pub actual: u16,
    pub conflicted: bool,
}

/// The ports as they are shown: another port than the configured one is in use only
/// where there is one at all.
pub fn get_port_status(configured: u16, actual: u16) -> (r: PortStatus)
    ensures
        r == (PortStatus {
            configured,
            actual,
            conflicted: actual != 0 && actual != configured,
        }),
{
    PortStatus { configured, actual, conflicted: actual != 0 && actual != configured }
}

/// Refuses a port that cannot be configured: zero, or one that something else uses.
pub fn check_new_port(port: u16, actual: u16, available: bool) -> (r: Result<(), String>)
    ensures
        if port == 0 {
            r is Err && r->Err_0@ == "端口不能为 0"@
        } else if port != actual && !available {
            r is Err && r->Err_0@ == "端口 "@ + text::digits(port as nat) + " 已被占用"@
        } else {
            r is Ok
        },
{
    if port == 0 {
        return Err("端口不能为 0".to_owned());
    }
    if port != actual && !available {
        let mut s: String = "端口 ".to_owned();
        text::push_u64(&mut s, port as u64);
        s.append(" 已被占用");
        return Err(s);
    }
    Ok(())
}

/// Refuses an address that the browser is not to open.
pub fn check_url(url: &str) -> (r: Result<(), String>)
    ensures
        if text::begins_with(url@, "http://"@) || text::begins_with(url@, "https://"@) {
            r is Ok
        } else {
            r is Err && r->Err_0@ == "仅支持 http(s) 链接"@
        },
{
    if text::starts_with(url, "http://") || text::starts_with(url, "https://") {
        Ok(())
    } else {
        Err("仅支持 http(s) 链接".to_owned())
    }
}

/// The page of the window.
pub fn admin_url(port: u16) -> (r: String)
    ensures
        r@ == "http://127.0.0.1:"@ + text::digits(port as nat) + "/admin"@,
{
    let mut s: String = "http://127.0.0.1:".to_owned();
    text::push_u64(&mut s, port as u64);
    s.append("/admin");
    s
}

/// A character inside a literal.
pub open spec fn escaped_char(c: char) -> Seq<char> {
    if c == '"' {
        seq!['\\', '"']
    } else if c == '\\' {
        seq!['\\', '\\']
    } else if c == '\n' {
        seq!['\\', 'n']
    } else if c == '\r' {
        seq!['\\', 'r']
    } else if c == '\t' {
        seq!['\\', 't']
    } else if (c as u32) < 0x20 {
        seq!['\\', 'u', '0', '0', text::hex_char((c as u8) / 16), text::hex_char((c as u8) % 16)]
    } else {
        seq![c]
    }
}

/// A text inside a literal.
pub open spec fn escaped(s: Seq<char>) -> Seq<char>
    decreases s.len(),
{
    if s.len() == 0 {
        Seq::empty()
    } else {
        escaped(s.drop_last()) + escaped_char(s.last())
    }
}

fn push_escaped(s: &mut String, c: char)
    ensures
        final(s)@ == old(s)@ + escaped_char(c),
{
    let ghost before = s@;
    let n: u32 = c as u32;
    if c == '"' {
        s.push('\\');
        s.push('"');
    } else if c == '\\' {
        s.push('\\');
        s.push('\\');
    } else if c == '\n' {
        s.push('\\');
        s.push('n');
    } else if c == '\r' {
        s.push('\\');
        s.push('r');
    } else if c == '\t' {
        s.push('\\');
        s.push('t');
    } else if n < 0x20 {
        s.push('\\');
        s.push('u');
        s.push('0');
        s.push('0');
        let d: u8 = n as u8;
        s.push(text::hex_digit(d / 16));
        s.push(text::hex_digit(d % 16));
    } else {
        s.push(c);
    }
    assert(s@ =~= before + escaped_char(c));
}

/// A text as a literal, in quotes.
pub fn serde_json_escape(s: &str) -> (r: String)
    ensures
        r@ == seq!['"'] + escaped(s@) + seq!['"'],
{
    let v: Vec<char> = text::chars_of(s);
    let mut out: String = String::new();
    out.push('"');
    let ghost head = seq!['"'];
    let n: usize = v.len();
    let mut i: usize = 0;
    assert(v@.take(0) =~= Seq::empty());
    assert(out@ =~= head + escaped(v@.take(0)));
    while i < n
        invariant
            i <= n == v@.len(),
            out@ == head + escaped(v@.take(i as int)),
        decreases n - i,
    {
        assert(v@.take(i + 1).drop_last() =~= v@.take(i as int));
        push_escaped(&mut out, v[i]);
        assert(out@ =~= head + escaped(v@.take(i + 1)));
        i = i + 1;
    }
    assert(v@.take(i as int) =~= v@);
    out.push('"');
    assert(out@ =~= head + escaped(s@) + seq!['"']);
    out
}

/// A character on a page.
pub open spec fn html_char(c: char) -> Seq<char> {
    if c == '&' {
        "&amp;"@
    } else if c == '<' {
        "&lt;"@
    } else if c == '>' {
        "&gt;"@
    } else {
        seq![c]
    }
}

/// A text on a page.
pub open spec fn html_text(s: Seq<char>) -> Seq<char>
    decreases s.len(),
{
    if s.len() == 0 {
        Seq::empty()
    } else {
        html_text(s.drop_last()) + html_char(s.last())
    }
}

/// A text on a page; see [`html_text`].
pub fn html_escape(s: &str) -> (r: String)
    ensures
        r@ == html_text(s@),
{
    let v: Vec<char> = text::chars_of(s);
    let mut out: String = String::new();
    let n: usize = v.len();
    let mut i: usize = 0;
    assert(v@.take(0) =~= Seq::empty());
    assert(out@ =~= html_text(v@.take(0)));
    while i < n
        invariant
            i <= n == v@.len(),
            out@ == html_text(v@.take(i as int)),
        decreases n - i,
    {
        assert(v@.take(i + 1).drop_last() =~= v@.take(i as int));
        let ghost before = out@;
        let c: char = v[i];
        if c == '&' {
            out.append("&amp;");
        } else if c == '<' {
            out.append("&lt;");
        } else if c == '>' {
            out.append("&gt;");
        } else {
            out.push(c);
        }
        assert(out@ =~= before + html_char(c));
        i = i + 1;
    }
    assert(v@.take(i as int) =~= v@);
    out
}

/// The script that signs the user in.
pub fn sign_in_script(admin_key: &str) -> (r: String)
    ensures
        r@ == "try { localStorage.setItem('adminApiKey', "@ + (seq!['"'] + escaped(admin_key@)
            + seq!['"']) + "); } catch (e) {}"@,
{
    let mut s: String = "try { localStorage.setItem('adminApiKey', ".to_owned();
    let literal: String = serde_json_escape(admin_key);
    s.append(literal.as_str());
    s.append("); } catch (e) {}");
    s
}

/// The page that says why the service did not start.
pub fn error_page(message: &str) -> (r: String)
    ensures
        r@ == "data:text/html,<html><body style='font-family:sans-serif;padding:2rem'><h2>kiro-rs 启动失败</h2><pre style='white-space:pre-wrap'>"@
            + html_text(message@) + "</pre></body></html>"@,
{
    let mut s: String =
        "data:text/html,<html><body style='font-family:sans-serif;padding:2rem'><h2>kiro-rs 启动失败</h2><pre style='white-space:pre-wrap'>".to_owned();
    let shown: String = html_escape(message);
    s.append(shown.as_str());
    s.append("</pre></body></html>");
    s
}

/// A text on a page opens and closes nothing there.
pub proof fn law_html_text_is_inert(s: Seq<char>, i: int)
    requires
        0 <= i < html_text(s).len(),
    ensures
        html_text(s)[i] != '<' && html_text(s)[i] != '>',
    decreases s.len(),
{
    let head = html_text(s.drop_last());
    if i < head.len() {
        law_html_text_is_inert(s.drop_last(), i);
    } else {
        reveal_strlit("&amp;");
        reveal_strlit("&lt;");
        reveal_strlit("&gt;");
        assert(html_text(s)[i] == html_char(s.last())[i - head.len()]);
    }
}

/// A literal stays on its line: no control character comes through.
pub proof fn law_literal_stays_on_its_line(s: Seq<char>, i: int)
    requires
        0 <= i < escaped(s).len(),
    ensures
        escaped(s)[i] as u32 >= 0x20,
    decreases s.len(),
{
    let head = escaped(s.drop_last());
    if i < head.len() {
        law_literal_stays_on_its_line(s.drop_last(), i);
    } else {
        let c = s.last();
        assert(escaped(s)[i] == escaped_char(c)[i - head.len()]);
        if (c as u32) < 0x20 {
            let q = (c as u8) / 16;
            let r = (c as u8) % 16;
            assert(text::hex_char(q) as u32 >= 0x20);
            assert(text::hex_char(r) as u32 >= 0x20);
        }
    }
}

/// The value of a hexadecimal digit.
pub open spec fn hex_value(c: char) -> Option<u32> {
    if '0' <= c <= '9' {
        Some((c as u32 - '0' as u32) as u32)
    } else if 'a' <= c <= 'f' {
        Some((c as u32 - 'a' as u32 + 10) as u32)
    } else if 'A' <= c <= 'F' {
        Some((c as u32 - 'A' as u32 + 10) as u32)
    } else {
        None
    }
}

/// The character that four hexadecimal digits stand for. Halves of a surrogate pair, which
/// no literal here is written with, are left out.
pub open spec fn unit_value(a: char, b: char, c: char, d: char) -> Option<char> {
    match (hex_value(a), hex_value(b), hex_value(c), hex_value(d)) {
        (Some(w), Some(x), Some(y), Some(z)) => {
            let n = 4096 * w + 256 * x + 16 * y + z;
            if 0xd800 <= n <= 0xdfff {
                None
            } else {
                Some(n as char)
            }
        },
        _ => None,
    }
}

/// The character that a letter behind a reverse solidus stands for.
pub open spec fn short_escape(c: char) -> Option<char> {
    if c == '"' || c == '\\' || c == '/' {
        Some(c)
    } else if c == 'b' {
        Some('\u{8}')
    } else if c == 'f' {
        Some('\u{c}')
    } else if c == 'n' {
        Some('\n')
    } else if c == 'r' {
        Some('\r')
    } else if c == 't' {
        Some('\t')
    } else {
        None
    }
}

/// A character before a text, where there are both.
pub open spec fn before(c: Option<char>, rest: Option<Seq<char>>) -> Option<Seq<char>> {
    match (c, rest) {
        (Some(c), Some(t)) => Some(seq![c] + t),
        _ => None,
    }
}

/// What the inside of a JSON string literal stands for, if it is one.
pub open spec fn read_inside(s: Seq<char>) -> Option<Seq<char>>
    decreases s.len(),
{
    if s.len() == 0 {
        Some(Seq::empty())
    } else if s[0] == '"' || (s[0] as u32) < 0x20 {
        None
    } else if s[0] != '\\' {
        before(Some(s[0]), read_inside(s.skip(1)))
    } else if s.len() >= 6 && s[1] == 'u' {
        before(unit_value(s[2], s[3], s[4], s[5]), read_inside(s.skip(6)))
    } else if s.len() >= 2 {
        before(short_escape(s[1]), read_inside(s.skip(2)))
    } else {
        None
    }
}

/// What a JSON string literal stands for, if the text is one.
pub open spec fn read_literal(s: Seq<char>) -> Option<Seq<char>> {
    if s.len() >= 2 && s[0] == '"' && s.last() == '"' {
        read_inside(s.subrange(1, s.len() - 1))
    } else {
        None
    }
}

proof fn lemma_escaped_front(s: Seq<char>)
    requires
        s.len() > 0,
    ensures
        escaped(s) == escaped_char(s[0]) + escaped(s.drop_first()),
    decreases s.len(),
{
    let rest = s.drop_first();
    if rest.len() == 0 {
        assert(s.drop_last() =~= rest);
        assert(escaped(rest) =~= Seq::empty());
        assert(escaped(s) =~= escaped_char(s[0]) + escaped(rest));
    } else {
        lemma_escaped_front(s.drop_last());
        assert(s.drop_last().drop_first() =~= rest.drop_last());
        assert(rest.last() == s.last());
        assert(escaped(rest) == escaped(rest.drop_last()) + escaped_char(s.last()));
        assert(escaped(s) =~= escaped_char(s[0]) + escaped(rest));
    }
}

proof fn lemma_unit(c: char)
    requires
        (c as u32) < 0x20,
    ensures
        unit_value(
            '0',
            '0',
            text::hex_char((c as u8) / 16),
            text::hex_char((c as u8) % 16),
        ) == Some(c),
{
    let d = c as u8;
    assert(hex_value(text::hex_char(d / 16)) == Some((d / 16) as u32));
    assert(hex_value(text::hex_char(d % 16)) == Some((d % 16) as u32));
    assert(16 * (d / 16) + d % 16 == d);
}

proof fn lemma_read_char(c: char, t: Seq<char>)
    ensures
        read_inside(escaped_char(c) + t) == before(Some(c), read_inside(t)),
{
    let e = escaped_char(c);
    let s = e + t;
    if (c as u32) < 0x20 && c != '\n' && c != '\r' && c != '\t' {
        lemma_unit(c);
        assert(s.skip(6) =~= t);
    } else if e.len() == 2 {
        assert(s.skip(2) =~= t);
    } else {
        assert(s.skip(1) =~= t);
    }
}

proof fn lemma_read_escaped(s: Seq<char>)
    ensures
        read_inside(escaped(s)) == Some(s),
    decreases s.len(),
{
    if s.len() > 0 {
        lemma_escaped_front(s);
        lemma_read_escaped(s.drop_first());
        lemma_read_char(s[0], escaped(s.drop_first()));
        assert(seq![s[0]] + s.drop_first() =~= s);
    } else {
        assert(s =~= Seq::empty());
    }
}

/// A literal stands for the text that it was made of.
pub proof fn law_literal_reads_back(s: Seq<char>)
    ensures
        read_literal(seq!['"'] + escaped(s) + seq!['"']) == Some(s),
{
    lemma_read_escaped(s);
    let l = seq!['"'] + escaped(s) + seq!['"'];
    assert(l.subrange(1, l.len() - 1) =~= escaped(s));
}

/// A port is a number that a port can have.
pub proof fn law_port_of(s: Seq<char>)
    ensures
        port_of(s) is Some <==> text::number_of(s) is Some && text::number_of(s).unwrap() <= 65535,
        port_of(s) is Some ==> port_of(s) == text::number_of(s),
{
}

/// On a page a text shows as it is: each of its characters as itself, but for the three that
/// would be read as something else, which are written so that they show.
pub proof fn law_html_text_shows(s: Seq<char>, c: char)
    ensures
        html_text(Seq::empty()) == Seq::<char>::empty(),
        html_text(s.push(c)) == html_text(s) + if c == '&' {
            "&amp;"@
        } else if c == '<' {
            "&lt;"@
        } else if c == '>' {
            "&gt;"@
        } else {
            seq![c]
        },
{
    assert(s.push(c).drop_last() =~= s);
}

} // verus!
