//! The build tool's settings: where its directories lie, what each
//! subcommand does, and the Rust source it writes for the kernel's and the
//! boot stub's configuration.

use vstd::prelude::*;

verus! {

/// Subcommands of the build tool.
#[derive(Copy, Clone, Debug, PartialEq, Eq, Structural)]
pub enum SubCommand {
    /// Build the kernel.
    Build,
    /// Run the kernel in QEMU and attach GDB.
    Debug,
    /// Run the kernel in QEMU.
    Run,
    /// Run the kernel's tests in QEMU.
    Test,
}

/// What `std::path::Path::join` makes of a base path and a relative one.
pub uninterp spec fn path_join(base: Seq<char>, rel: Seq<char>) -> Seq<char>;

/// Relies on `std::path::Path::join`: the result depends on the two paths
/// alone.
#[verifier::external_body]
fn join_path(base: &str, rel: &str) -> (r: String)
    ensures
        r@ == path_join(base@, rel@),
{
    std::path::Path::new(base).join(rel).to_string_lossy().into_owned()
}

/// The two strings one after the other.
fn concat(a: &str, b: &str) -> (r: String)
    ensures
        r@ == a@ + b@,
{
    String::from_str(a).concat(b)
}

/// Relies on `String`'s `FromIterator<char>`: the characters in order.
#[verifier::external_body]
fn string_from_chars(chars: &Vec<char>) -> (r: String)
    ensures
        r@ == chars@,
{
    chars.iter().collect()
}

/// The build tool's command line.
pub struct Info {
    /// Base directory of the workspace.
    pub base_dir: String,
    /// Directory of the configuration files, where given.
    pub config_dir: Option<String>,
    /// Build with optimizations.
    pub release: bool,
    pub cmd: SubCommand,
}

/// Paths relative to the workspace's base directory.
pub const TARGETSPEC_DIR: &'static str = "data/targetspec";

pub const OUT_DIR: &'static str = "target/xtask/out";

pub const ESP_DIR: &'static str = "target/xtask/esp";

pub const CONFIG_DIR: &'static str = "config";

impl Info {
    /// Whether the tests are built and run.
    pub fn test(&self) -> (r: bool)
        ensures
            r <==> self.cmd == SubCommand::Test,
    {
        self.cmd == SubCommand::Test
    }

    /// Directory of the target specifications.
    pub fn targetspec_dir(&self) -> (r: String)
        ensures
            r@ == path_join(self.base_dir@, TARGETSPEC_DIR@),
    {
        join_path(self.base_dir.as_str(), TARGETSPEC_DIR)
    }

    /// Directory of the generated files.
    pub fn out_dir(&self) -> (r: String)
        ensures
            r@ == path_join(self.base_dir@, OUT_DIR@),
    {
        join_path(self.base_dir.as_str(), OUT_DIR)
    }

    /// Directory of the EFI system partition.
    pub fn esp_dir(&self) -> (r: String)
        ensures
            r@ == path_join(self.base_dir@, ESP_DIR@),
    {
        join_path(self.base_dir.as_str(), ESP_DIR)
    }

    /// Directory of the configuration files: the one given, else `config`
    /// under the base directory.
    pub fn config_dir(&self) -> (r: String)
        ensures
            self.config_dir matches Some(d) ==> r@ == d@,
            self.config_dir is None ==> r@ == path_join(self.base_dir@, CONFIG_DIR@),
    {
        match &self.config_dir {
            Some(d) => d.clone(),
            None => join_path(self.base_dir.as_str(), CONFIG_DIR),
        }
    }
}

/// What a run of the kernel needs: the settings and the built binaries.
pub struct RunInfo {
    pub info: Info,
    /// Path of the kernel binary.
    pub kernel: String,
    /// Path of the boot stub.
    pub efi_stub: String,
}

/// ASCII upper case of `c`; other characters are kept.
pub open spec fn upper(c: char) -> char {
    if 'a' <= c && c <= 'z' {
        ((c as u32) - 32) as char
    } else {
        c
    }
}

/// `s` with the spaces removed and the first character after each space,
/// and the very first, in upper case.
pub open spec fn camel_spec(s: Seq<char>, at_start: bool) -> Seq<char>
    decreases s.len(),
{
    if s.len() == 0 {
        Seq::empty()
    } else if s[0] == ' ' {
        camel_spec(s.drop_first(), true)
    } else {
        seq![if at_start { upper(s[0]) } else { s[0] }] + camel_spec(s.drop_first(), false)
    }
}

/// Space-separated words, each non-empty and starting with an ASCII
/// character.
pub open spec fn words_ok(s: Seq<char>) -> bool {
    &&& s.len() > 0
    &&& s[0] != ' ' && (s[0] as u32) < 128
    &&& s.last() != ' '
    &&& forall|i: int| 0 <= i < s.len() - 1 && #[trigger] s[i] == ' ' ==> s[i + 1] != ' ' && (s[i
        + 1] as u32) < 128
}

fn upper_char(c: char) -> (r: char)
    ensures
        r == upper(c),
{
    if 'a' <= c && c <= 'z' {
        ((c as u32 - 32) as u8) as char
    } else {
        c
    }
}

/// Join space-separated words into one, each starting in upper case
/// (`linked list` becomes `LinkedList`). Each word is split after its first
/// byte, so words must be non-empty and start with an ASCII character.
pub fn camel_case(s: &str) -> (r: String)
    requires
        words_ok(s@),
    ensures
        r@ == camel_spec(s@, true),
{
    let n = s.unicode_len();
    let mut out: Vec<char> = Vec::new();
    let mut at_start = true;
    let mut i: usize = 0;
    proof {
        assert(s@.subrange(0, n as int) =~= s@);
        assert(out@ + camel_spec(s@, true) =~= camel_spec(s@, true));
    }
    while i < n
        invariant
            n == s@.len(),
            0 <= i <= n,
            out@ + camel_spec(s@.subrange(i as int, n as int), at_start) == camel_spec(s@, true),
        decreases n - i,
    {
        let c = s.get_char(i);
        let ghost rest = s@.subrange(i as int, n as int);
        let ghost tail = s@.subrange(i + 1, n as int);
        let ghost before = out@;
        proof {
            assert(rest.drop_first() =~= tail);
            assert(rest[0] == c);
        }
        if c == ' ' {
            at_start = true;
        } else {
            let d = if at_start {
                upper_char(c)
            } else {
                c
            };
            out.push(d);
            at_start = false;
            proof {
                assert(before + (seq![d] + camel_spec(tail, false)) =~= out@ + camel_spec(tail, false));
            }
        }
        i = i + 1;
    }
    proof {
        assert(s@.subrange(n as int, n as int) =~= Seq::<char>::empty());
        assert(out@ + Seq::<char>::empty() =~= out@);
    }
    string_from_chars(&out)
}

/// Start of the line that sets the log level.
pub const LOG_LEVEL_LINE: &'static str = "pub const LOG_LEVEL: log::LevelFilter = log::LevelFilter::";

/// Start of the line that picks the heap allocator.
pub const ALLOCATOR_LINE: &'static str = "pub type Allocator = crate::allocator::";

/// End of the line that picks the heap allocator.
pub const ALLOCATOR_SUFFIX: &'static str = "Allocator;\n";

/// End of a line.
pub const LINE_END: &'static str = ";\n";

/// The line of generated source that sets the log level to `level`.
pub open spec fn log_level_line(level: Seq<char>) -> Seq<char> {
    LOG_LEVEL_LINE@ + camel_spec(level, true) + LINE_END@
}

fn render_log_level(level: &str) -> (r: String)
    requires
        words_ok(level@),
    ensures
        r@ == log_level_line(level@),
{
    let name = camel_case(level);
    let head = concat(LOG_LEVEL_LINE, name.as_str());
    concat(head.as_str(), LINE_END)
}

/// The whole build configuration.
pub struct BuildConfig {
    /// Package of the userspace program.
    pub user: String,
    pub uefi_stub: StubConfig,
    pub kernel: KernelConfig,
}

/// Configuration of the boot stub.
pub struct StubConfig {
    pub log_level: String,
}

impl StubConfig {
    /// The Rust source that carries this configuration into the boot stub.
    pub fn render(&self) -> (r: String)
        requires
            words_ok(self.log_level@),
        ensures
            r@ == log_level_line(self.log_level@),
    {
        render_log_level(self.log_level.as_str())
    }
}

/// Configuration of the kernel.
pub struct KernelConfig {
    pub log_level: String,
    /// Heap allocator, in words (`bump`, `linked list`).
    pub allocator: String,
}

impl KernelConfig {
    /// The Rust source that carries this configuration into the kernel.
    pub fn render(&self) -> (r: String)
        requires
            words_ok(self.log_level@),
            words_ok(self.allocator@),
        ensures
            r@ == log_level_line(self.log_level@) + ALLOCATOR_LINE@ + camel_spec(self.allocator@, true)
                + ALLOCATOR_SUFFIX@,
    {
        let level = render_log_level(self.log_level.as_str());
        let name = camel_case(self.allocator.as_str());
        let line = concat(ALLOCATOR_LINE, name.as_str());
        let line = concat(line.as_str(), ALLOCATOR_SUFFIX);
        concat(level.as_str(), line.as_str())
    }
}

/// Configuration of a QEMU run.
pub struct RunConfig {
    /// Directory holding the OVMF firmware images.
    pub ovmf_dir: String,
    /// Extra arguments for QEMU.
    pub qemu_args: Vec<String>,
}

/// How a command that ran did not succeed.
#[derive(Copy, Clone, Debug, PartialEq, Eq, Structural)]
pub enum CommandFailure {
    /// It exited with a status code other than 0.
    Exited(i32),
    /// A signal ended it.
    Signalled,
}

/// Judging how a command ended.
pub trait CommandResultExt {
    /// `Ok` for a command that exited with status 0, else how it failed.
    fn check_status(self) -> Result<(), CommandFailure>;
}

impl CommandResultExt for Option<i32> {
    /// `Some(code)` is the exit status; `None` means a signal ended the
    /// command.
    fn check_status(self) -> (r: Result<(), CommandFailure>)
        ensures
            self == Some(0i32) ==> r is Ok,
            (self is Some && self.unwrap() != 0) ==> r == Err::<(), CommandFailure>(CommandFailure::Exited(self.unwrap())),
            self is None ==> r == Err::<(), CommandFailure>(CommandFailure::Signalled),
    {
        match self {
            Some(0) => Ok(()),
            Some(code) => Err(CommandFailure::Exited(code)),
            None => Err(CommandFailure::Signalled),
        }
    }
}

/// Whether `words_ok` holds of `s`: what `camel_case` accepts.
pub fn check_words(s: &str) -> (r: bool)
    ensures
        r == words_ok(s@),
{
    let n = s.unicode_len();
    if n == 0 {
        return false;
    }
    let first = s.get_char(0);
    if first == ' ' || (first as u32) >= 128 || s.get_char(n - 1) == ' ' {
        return false;
    }
    let mut i: usize = 0;
    while i + 1 < n
        invariant
            n == s@.len(),
            n > 0,
            0 <= i < n,
            forall|j: int| 0 <= j < i && #[trigger] s@[j] == ' ' ==> s@[j + 1] != ' ' && (s@[j + 1] as u32) < 128,
        decreases n - i,
    {
        if s.get_char(i) == ' ' {
            let next = s.get_char(i + 1);
            if next == ' ' || (next as u32) >= 128 {
                return false;
            }
        }
        i = i + 1;
    }
    true
}

} // verus!
