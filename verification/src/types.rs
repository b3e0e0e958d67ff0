//! The data model: tasks, sources, quadrants and the application settings,
//! with the content hash and the short identifiers derived from it.

use vstd::prelude::*;
use sha2::Digest;

verus! {

/// The four Eisenhower quadrants a task section can be labelled with.
#[derive(Debug, Clone, Copy, PartialEq, Eq, Hash, Structural)]
pub enum Quadrant {
    UrgentImportant,
    NotUrgentImportant,
    UrgentNotImportant,
    NotUrgentNotImportant,
}

/// One task line found in a Markdown file.
#[derive(Debug, PartialEq, Eq)]
pub struct Task {
    pub id: String,
    pub text: String,
    pub completed: bool,
    /// The file the task was read from.
    pub source_file: String,
    /// 1-based line number.
    pub line_number: usize,
    pub indent: usize,
    /// Id of the configured folder or file the task was found through.
    pub source_id: String,
    /// The quadrant of the heading the task stands under, if any.
    pub quadrant: Option<Quadrant>,
}

impl Clone for Task {
    fn clone(&self) -> (r: Self)
        ensures
            r == *self,
    {
        Task {
            id: self.id.clone(),
            text: self.text.clone(),
            completed: self.completed,
            source_file: self.source_file.clone(),
            line_number: self.line_number,
            indent: self.indent,
            source_id: self.source_id.clone(),
            quadrant: self.quadrant,
        }
    }
}

/// Whether a source is a folder scanned recursively or a single file.
#[derive(Debug, Clone, Copy, PartialEq, Eq, Structural)]
pub enum SourceKind {
    Folder,
    File,
}

/// One of the built-in quick-action launchers shown on a source's header.
#[derive(Debug, Clone, Copy, PartialEq, Eq, Hash, Structural)]
pub enum QuickActionKind {
    Vscode,
    Terminal,
    ClaudeCode,
    /// Open the source's path in the OS file manager.
    Reveal,
}

/// The default for settings that are on unless switched off.
pub fn default_true() -> (b: bool)
    ensures
        b,
{
    true
}

/// Quick actions shipped to new users: Reveal, VS Code, terminal.
pub fn default_quick_actions() -> (v: Vec<QuickActionKind>)
    ensures
        v@ == seq![QuickActionKind::Reveal, QuickActionKind::Vscode, QuickActionKind::Terminal],
{
    let mut v = Vec::new();
    v.push(QuickActionKind::Reveal);
    v.push(QuickActionKind::Vscode);
    v.push(QuickActionKind::Terminal);
    v
}

/// A user-configured task source: a folder or a single `.md` file.
#[derive(Debug, PartialEq, Eq)]
pub struct Source {
    /// Stable id derived from `path` (hex of the first 8 bytes of its SHA-256).
    pub id: String,
    pub path: String,
    pub kind: SourceKind,
    /// Optional display name.
    pub label: Option<String>,
    /// Where shell actions jump to; `None` means the path itself (folder)
    /// or its parent directory (file).
    pub project_root: Option<String>,
    /// Optional accent colour (CSS hex such as `#ef4444`).
    pub color: Option<String>,
}

/// A copy of an optional text.
pub fn clone_opt(o: &Option<String>) -> (r: Option<String>)
    ensures
        r == *o,
{
    match o {
        Some(s) => Some(s.clone()),
        None => None,
    }
}

impl Clone for Source {
    fn clone(&self) -> (r: Self)
        ensures
            r == *self,
    {
        Source {
            id: self.id.clone(),
            path: self.path.clone(),
            kind: self.kind,
            label: clone_opt(&self.label),
            project_root: clone_opt(&self.project_root),
            color: clone_opt(&self.color),
        }
    }
}

/// Accelerators of the two global shortcuts; `None` means unbound.
#[derive(Debug, Clone, PartialEq, Eq)]
pub struct HotkeyConfig {
    pub toggle: Option<String>,
    pub quick_add: Option<String>,
}

pub open spec fn opt_view(o: Option<String>) -> Option<Seq<char>> {
    match o {
        Some(s) => Some(s@),
        None => None,
    }
}

impl HotkeyConfig {
    /// `CmdOrCtrl+Shift+T` toggles the window, `CmdOrCtrl+Shift+A` opens quick add.
    pub fn defaults() -> (h: HotkeyConfig)
        ensures
            opt_view(h.toggle) == Some("CmdOrCtrl+Shift+T"@),
            opt_view(h.quick_add) == Some("CmdOrCtrl+Shift+A"@),
    {
        HotkeyConfig {
            toggle: Some(String::from_str("CmdOrCtrl+Shift+T")),
            quick_add: Some(String::from_str("CmdOrCtrl+Shift+A")),
        }
    }
}

/// The application settings.
#[derive(Debug, Clone, PartialEq, Eq)]
pub struct AppConfig {
    /// User-configured task sources, in display order.
    pub sources: Vec<Source>,
    /// Which source receives a new task when none is named.
    pub default_source_id: Option<String>,
    /// File name used inside a folder source for new tasks.
    pub inbox_file: String,
    pub always_on_top: bool,
    /// Display labels of single files, as (file key, label) pairs with distinct keys.
    pub file_labels: Vec<(String, String)>,
    /// Quick-action buttons shown on each source header, in order.
    pub enabled_quick_actions: Vec<QuickActionKind>,
    /// Folder where every source is mirrored; `None` switches mirroring off.
    pub hub_folder: Option<String>,
    pub auto_create_quadrant_headers: bool,
    pub hotkeys: HotkeyConfig,
}

impl Default for AppConfig {
    fn default() -> (c: AppConfig)
        ensures
            c.sources@.len() == 0,
            c.default_source_id is None,
            c.inbox_file@ == "inbox.md"@,
            c.always_on_top,
            c.file_labels@.len() == 0,
            c.enabled_quick_actions@ == seq![QuickActionKind::Reveal, QuickActionKind::Vscode, QuickActionKind::Terminal],
            c.hub_folder is None,
            c.auto_create_quadrant_headers,
            opt_view(c.hotkeys.toggle) == Some("CmdOrCtrl+Shift+T"@),
            opt_view(c.hotkeys.quick_add) == Some("CmdOrCtrl+Shift+A"@),
    {
        AppConfig {
            sources: Vec::new(),
            default_source_id: None,
            inbox_file: String::from_str("inbox.md"),
            always_on_top: true,
            file_labels: Vec::new(),
            enabled_quick_actions: default_quick_actions(),
            hub_folder: None,
            auto_create_quadrant_headers: default_true(),
            hotkeys: HotkeyConfig::defaults(),
        }
    }
}

/// A 32-byte SHA-256 digest.
pub type ContentHash = [u8; 32];

/// The SHA-256 digest of a byte sequence.
pub uninterp spec fn sha256_of(data: Seq<u8>) -> Seq<u8>;

/// SHA-256 of `bytes`, computed by the `sha2` crate's `Sha256`
/// (`new`, `update`, `finalize`). The contract claims that the digest is a
/// function of the bytes alone, named `sha256_of`.
#[verifier::external_body]
pub fn hash_content(bytes: &[u8]) -> (h: ContentHash)
    ensures
        h@ == sha256_of(bytes@),
{
    let mut hasher = sha2::Sha256::new();
    hasher.update(bytes);
    hasher.finalize().into()
}

/// The lower-case hexadecimal digit of `n < 16`.
pub open spec fn hex_digit(n: u8) -> char {
    if n < 10 {
        ((n + 48) as u8) as char
    } else {
        ((n + 87) as u8) as char
    }
}

/// Lower-case hexadecimal encoding, two digits per byte, high nibble first.
pub open spec fn spec_hex(data: Seq<u8>) -> Seq<char>
    decreases data.len(),
{
    if data.len() == 0 {
        Seq::empty()
    } else {
        spec_hex(data.drop_last()) + seq![hex_digit(data.last() / 16), hex_digit(data.last() % 16)]
    }
}

/// `hex::encode`: the contract states its whole behaviour, lower-case
/// digits, two per byte, high nibble first (the crate's `HEX_CHARS_LOWER` table).
#[verifier::external_body]
pub(crate) fn hex_encode(data: &[u8]) -> (s: String)
    ensures
        s@ == spec_hex(data@),
{
    hex::encode(data)
}

/// Hex of the first 8 bytes of the SHA-256 of the UTF-8 bytes of `s`.
pub open spec fn short_id(s: Seq<char>) -> Seq<char> {
    spec_hex(sha256_of(vstd::utf8::encode_utf8(s)).take(8))
}

/// The short id of a text: hex of the first 8 bytes of its SHA-256.
pub fn short_id_of(s: &str) -> (id: String)
    ensures
        id@ == short_id(s@),
{
    let h = hash_content(s.as_bytes());
    short_id_from_digest(&h)
}

/// Hex of the first 8 bytes of a SHA-256 digest.
pub fn short_id_from_digest(h: &ContentHash) -> (id: String)
    ensures
        id@ == spec_hex(h@.take(8)),
{
    let mut head: Vec<u8> = Vec::new();
    let mut i: usize = 0;
    while i < 8
        invariant
            i <= 8,
            h@.len() == 32,
            head@ == h@.take(i as int),
        decreases 8 - i,
    {
        head.push(h[i]);
        i += 1;
        proof {
            assert(h@.take(i as int) =~= h@.take(i - 1).push(h@[i - 1]));
        }
    }
    hex_encode(head.as_slice())
}

/// The Windows verbatim prefix `\\?\`.
pub open spec fn verbatim_prefix() -> Seq<char> {
    seq!['\\', '\\', '?', '\\']
}

/// `dunce::simplified`, taking and giving the path as text. The crate's
/// source returns the path unchanged, or (on Windows, for a verbatim disk
/// path that is safe to shorten) the path after its 4-byte `\\?\` prefix;
/// the contract states exactly that choice and leaves open which is made.
#[verifier::external_body]
fn simplified_path(path: &str) -> (out: String)
    ensures
        out@ == path@ || (path@.len() >= 4 && path@.take(4) == verbatim_prefix() && out@
            == path@.skip(4)),
{
    dunce::simplified(std::path::Path::new(path)).to_string_lossy().into_owned()
}

impl Source {
    /// The stable id of a source path: the short id of its simplified form.
    pub fn id_for(path: &str) -> (id: String)
        ensures
            id@ == short_id(path@) || (path@.len() >= 4 && path@.take(4) == verbatim_prefix()
                && id@ == short_id(path@.skip(4))),
    {
        let cleaned = simplified_path(path);
        short_id_of(cleaned.as_str())
    }
}

impl Source {
    /// Where shell actions jump to: the project root when set, else the
    /// path itself for a folder, or its parent directory for a file.
    pub open spec fn spec_effective_root(&self) -> Seq<char> {
        match self.project_root {
            Some(p) => p@,
            None => match self.kind {
                SourceKind::Folder => self.path@,
                SourceKind::File => match crate::path::spec_parent(self.path@) {
                    Some(q) => q,
                    None => self.path@,
                },
            },
        }
    }

    /// Effective project root for shell actions (see `spec_effective_root`).
    pub fn effective_project_root(&self) -> (r: String)
        ensures
            r@ == self.spec_effective_root(),
    {
        if let Some(p) = &self.project_root {
            return p.clone();
        }
        match self.kind {
            SourceKind::Folder => self.path.clone(),
            SourceKind::File => match crate::path::parent(self.path.as_str()) {
                Some(q) => q,
                None => self.path.clone(),
            },
        }
    }
}

/// The key of a file in `AppConfig::file_labels`: its simplified path.
pub fn file_label_key(path: &str) -> (key: String)
    ensures
        key@ == path@ || (path@.len() >= 4 && path@.take(4) == verbatim_prefix() && key@
            == path@.skip(4)),
{
    simplified_path(path)
}

} // verus!
