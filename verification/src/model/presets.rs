//! Curated catalog of model presets.
//!
//! Each preset maps a short name to a downloadable GGUF file on Hugging Face. Only
//! single-file Q4_K_M variants are listed: a model in several parts cannot be
//! downloaded.
//!
//! Which model is used, highest precedence first: the preset named on the command
//! line, the one named in the environment, the one named in the config file, the
//! model section of the configuration, the defaults.

use vstd::prelude::*;
use vstd::string::*;

use crate::config::{Settings, DEFAULT_CONTEXT_LENGTH};
use crate::text;
use crate::text::{chars_of, decimal_of, same_ignoring_ascii_case};

verus! {

#[derive(Debug, Clone, Copy)]
pub struct ModelPreset {
    /// Short name that selects the preset.
    pub name: &'static str,
    /// Hugging Face repo id.
    pub repo: &'static str,
    /// GGUF filename within the repo.
    pub filename: &'static str,
    /// Approximate download size in MiB.
    pub approx_size_mib: u32,
    /// Context window that the engine uses by default.
    pub context_length: u32,
    /// Context length of the model itself.
    pub native_context: u32,
    /// Memory in GiB that is recommended at least.
    pub min_ram_gib: u32,
    /// One-line summary.
    pub description: &'static str,
}

/// The presets.
pub open spec fn preset_list() -> Seq<ModelPreset> {
    seq![
        ModelPreset {
            name: "qwen-coder-3b",
            repo: "Qwen/Qwen2.5-Coder-3B-Instruct-GGUF",
            filename: "qwen2.5-coder-3b-instruct-q4_k_m.gguf",
            approx_size_mib: 2100,
            context_length: 8192,
            native_context: 32768,
            min_ram_gib: 4,
            description: "Smallest. Snappy on any laptop; weakest reasoning.",
        },
        ModelPreset {
            name: "qwen-coder-7b",
            repo: "Qwen/Qwen2.5-Coder-7B-Instruct-GGUF",
            filename: "qwen2.5-coder-7b-instruct-q4_k_m.gguf",
            approx_size_mib: 4466,
            context_length: 8192,
            native_context: 32768,
            min_ram_gib: 8,
            description: "Default. Balanced quality / speed for coding tasks.",
        },
        ModelPreset {
            name: "qwen-coder-14b",
            repo: "Qwen/Qwen2.5-Coder-14B-Instruct-GGUF",
            filename: "qwen2.5-coder-14b-instruct-q4_k_m.gguf",
            approx_size_mib: 9011,
            context_length: 16384,
            native_context: 32768,
            min_ram_gib: 16,
            description: "Step up from 7B. Notably better reasoning; fits a 16 GB Mac.",
        },
        ModelPreset {
            name: "qwen-coder-32b",
            repo: "Qwen/Qwen2.5-Coder-32B-Instruct-GGUF",
            filename: "qwen2.5-coder-32b-instruct-q4_k_m.gguf",
            approx_size_mib: 19927,
            context_length: 16384,
            native_context: 32768,
            min_ram_gib: 32,
            description: "Top coding model in this size class; needs 32 GB+ unified memory.",
        },
        ModelPreset {
            name: "deepseek-coder-v2-lite",
            repo: "bartowski/DeepSeek-Coder-V2-Lite-Instruct-GGUF",
            filename: "DeepSeek-Coder-V2-Lite-Instruct-Q4_K_M.gguf",
            approx_size_mib: 10649,
            context_length: 16384,
            native_context: 163840,
            min_ram_gib: 16,
            description: "16B MoE (2.4B active). Fast inference, very long native context.",
        },
        ModelPreset {
            name: "codestral-22b",
            repo: "bartowski/Codestral-22B-v0.1-GGUF",
            filename: "Codestral-22B-v0.1-Q4_K_M.gguf",
            approx_size_mib: 13619,
            context_length: 16384,
            native_context: 32768,
            min_ram_gib: 24,
            description: "Mistral Codestral. Strong code completion and fill-in-the-middle.",
        },
    ]
}

/// The presets.
pub fn presets() -> (v: Vec<ModelPreset>)
    ensures
        v@ == preset_list(),
{
    let v = vec![
        ModelPreset {
            name: "qwen-coder-3b",
            repo: "Qwen/Qwen2.5-Coder-3B-Instruct-GGUF",
            filename: "qwen2.5-coder-3b-instruct-q4_k_m.gguf",
            approx_size_mib: 2100,
            context_length: 8192,
            native_context: 32768,
            min_ram_gib: 4,
            description: "Smallest. Snappy on any laptop; weakest reasoning.",
        },
        ModelPreset {
            name: "qwen-coder-7b",
            repo: "Qwen/Qwen2.5-Coder-7B-Instruct-GGUF",
            filename: "qwen2.5-coder-7b-instruct-q4_k_m.gguf",
            approx_size_mib: 4466,
            context_length: 8192,
            native_context: 32768,
            min_ram_gib: 8,
            description: "Default. Balanced quality / speed for coding tasks.",
        },
        ModelPreset {
            name: "qwen-coder-14b",
            repo: "Qwen/Qwen2.5-Coder-14B-Instruct-GGUF",
            filename: "qwen2.5-coder-14b-instruct-q4_k_m.gguf",
            approx_size_mib: 9011,
            context_length: 16384,
            native_context: 32768,
            min_ram_gib: 16,
            description: "Step up from 7B. Notably better reasoning; fits a 16 GB Mac.",
        },
        ModelPreset {
            name: "qwen-coder-32b",
            repo: "Qwen/Qwen2.5-Coder-32B-Instruct-GGUF",
            filename: "qwen2.5-coder-32b-instruct-q4_k_m.gguf",
            approx_size_mib: 19927,
            context_length: 16384,
            native_context: 32768,
            min_ram_gib: 32,
            description: "Top coding model in this size class; needs 32 GB+ unified memory.",
        },
        ModelPreset {
            name: "deepseek-coder-v2-lite",
            repo: "bartowski/DeepSeek-Coder-V2-Lite-Instruct-GGUF",
            filename: "DeepSeek-Coder-V2-Lite-Instruct-Q4_K_M.gguf",
            approx_size_mib: 10649,
            context_length: 16384,
            native_context: 163840,
            min_ram_gib: 16,
            description: "16B MoE (2.4B active). Fast inference, very long native context.",
        },
        ModelPreset {
            name: "codestral-22b",
            repo: "bartowski/Codestral-22B-v0.1-GGUF",
            filename: "Codestral-22B-v0.1-Q4_K_M.gguf",
            approx_size_mib: 13619,
            context_length: 16384,
            native_context: 32768,
            min_ram_gib: 24,
            description: "Mistral Codestral. Strong code completion and fill-in-the-middle.",
        },
    ];
    assert(v@ =~= preset_list());
    v
}

// ---------------------------------------------------------------------------
// Selection
// ---------------------------------------------------------------------------

/// The preset goes by the name `name`, the case of ASCII letters aside.
pub open spec fn goes_by(p: ModelPreset, name: Seq<char>) -> bool {
    text::ascii_lower_text(p.name@) == text::ascii_lower_text(name)
}

/// The first preset of a list that goes by a name.
pub open spec fn first_named(list: Seq<ModelPreset>, name: Seq<char>) -> Option<ModelPreset>
    decreases list.len(),
{
    if list.len() == 0 {
        None
    } else if goes_by(list.first(), name) {
        Some(list.first())
    } else {
        first_named(list.drop_first(), name)
    }
}

/// Finds a preset by its name, the case of ASCII letters aside.
pub fn find(name: &str) -> (r: Option<ModelPreset>)
    ensures
        r == first_named(preset_list(), name@),
{
    let list = presets();
    let mut i: usize = 0;
    assert(list@.skip(0) =~= list@);
    while i < list.len()
        invariant
            i <= list@.len(),
            list@ == preset_list(),
            first_named(preset_list(), name@) == first_named(list@.skip(i as int), name@),
        decreases list@.len() - i,
    {
        assert(list@.skip(i as int).first() == list@[i as int]);
        assert(list@.skip(i as int).drop_first() =~= list@.skip(i + 1));
        if same_ignoring_ascii_case(list[i].name, name) {
            return Some(list[i]);
        }
        i = i + 1;
    }
    None
}

/// Puts a preset in the place of the model section. What depends on the machine
/// stays, and so does a context length that was set to something else than the
/// default.
pub fn apply(settings: &mut Settings, preset: &ModelPreset)
    ensures
        final(settings).model.repo@ == preset.repo@,
        final(settings).model.filename@ == preset.filename@,
        final(settings).model.sha256@.len() == 0,
        final(settings).model.context_length == (if old(settings).model.context_length == 8192 {
            preset.context_length
        } else {
            old(settings).model.context_length
        }),
        final(settings).model.gpu_layers == old(settings).model.gpu_layers,
        final(settings).models_dir == old(settings).models_dir,
        final(settings).model_preset == old(settings).model_preset,
        final(settings).server == old(settings).server,
        final(settings).database == old(settings).database,
{
    settings.model.repo = preset.repo.to_owned();
    settings.model.filename = preset.filename.to_owned();
    if settings.model.context_length == DEFAULT_CONTEXT_LENGTH {
        settings.model.context_length = preset.context_length;
    }
    settings.model.sha256 = String::new();
}

/// The preset that is asked for: by the command line if it names one, else by the
/// configuration.
pub open spec fn wanted(cli: Option<String>, settings: Settings) -> Option<String> {
    match cli {
        Some(name) => Some(name),
        None => settings.model_preset,
    }
}

/// What is said of a name that no preset goes by.
pub open spec fn unknown_preset(name: Seq<char>) -> Seq<char> {
    "unknown preset '"@ + name + "'. Run `co_worker_lite --list-presets` to see the catalog."@
}

/// Applies the preset that is asked for, if any, and returns its name. A name that no
/// preset goes by is an error, and leaves the settings as they are.
pub fn select(settings: &mut Settings, cli: Option<String>) -> (r: Result<Option<String>, String>)
    ensures
        match (r, wanted(cli, *old(settings))) {
            (Ok(None), None) => *final(settings) == *old(settings),
            (Ok(Some(used)), Some(name)) => used == name && (
            first_named(preset_list(), name@) matches Some(p) && {
                &&& final(settings).model.repo@ == p.repo@
                &&& final(settings).model.filename@ == p.filename@
                &&& final(settings).model.sha256@.len() == 0
                &&& final(settings).model.context_length == (if old(
                    settings,
                ).model.context_length == 8192 {
                    p.context_length
                } else {
                    old(settings).model.context_length
                })
                &&& final(settings).model.gpu_layers == old(settings).model.gpu_layers
                &&& final(settings).models_dir == old(settings).models_dir
                &&& final(settings).model_preset == old(settings).model_preset
                &&& final(settings).server == old(settings).server
                &&& final(settings).database == old(settings).database
            }),
            (Err(e), Some(name)) => first_named(preset_list(), name@) is None && e@
                == unknown_preset(name@) && *final(settings) == *old(settings),
            _ => false,
        },
{
    let name = match cli {
        Some(name) => Some(name),
        None => settings.model_preset.clone(),
    };
    match name {
        None => Ok(None),
        Some(name) => match find(name.as_str()) {
            Some(p) => {
                apply(settings, &p);
                Ok(Some(name))
            },
            None => {
                let mut e = "unknown preset '".to_owned();
                e.append(name.as_str());
                e.append("'. Run `co_worker_lite --list-presets` to see the catalog.");
                Err(e)
            },
        },
    }
}

// ---------------------------------------------------------------------------
// The listing
// ---------------------------------------------------------------------------

/// So many spaces.
pub open spec fn spaces(n: int) -> Seq<char> {
    Seq::new(
        if n > 0 {
            n as nat
        } else {
            0
        },
        |i: int| ' ',
    )
}

/// A text brought to a width with spaces behind it.
pub open spec fn left(s: Seq<char>, width: int) -> Seq<char> {
    s + spaces(width - s.len())
}

/// A text brought to a width with spaces before it.
pub open spec fn right(s: Seq<char>, width: int) -> Seq<char> {
    spaces(width - s.len()) + s
}

/// One row of the listing, up to the description.
pub open spec fn row_head(name: Seq<char>, size: Seq<char>, ram: Seq<char>, ctx: Seq<char>) -> Seq<
    char,
> {
    "  "@ + left(name, 24) + "  "@ + right(size, 9) + "  "@ + right(ram, 7) + "  "@ + right(ctx, 9)
        + "  "@
}

/// One row of the listing.
pub open spec fn row(
    name: Seq<char>,
    size: Seq<char>,
    ram: Seq<char>,
    ctx: Seq<char>,
    description: Seq<char>,
) -> Seq<char> {
    row_head(name, size, ram, ctx) + description + "\n"@
}

/// A size as it is shown: in GiB with one decimal, rounded to the nearest, or in MiB
/// where it is less than one GiB.
pub open spec fn size_text(mib: u32) -> Seq<char> {
    if mib >= 1024 {
        let tenths = (mib as nat * 10 + 512) / 1024;
        text::decimal(tenths / 10) + "."@ + text::decimal(tenths % 10) + " GiB"@
    } else {
        text::decimal(mib as nat) + " MiB"@
    }
}

/// The memory of a preset as it is shown.
pub open spec fn ram_text(gib: u32) -> Seq<char> {
    text::decimal(gib as nat) + " GB"@
}

/// The context length of a preset as it is shown.
pub open spec fn ctx_text(context_length: u32) -> Seq<char> {
    text::decimal((context_length / 1024) as nat) + "K"@
}

/// The row of a preset.
pub open spec fn preset_row(p: ModelPreset) -> Seq<char> {
    row(
        p.name@,
        size_text(p.approx_size_mib),
        ram_text(p.min_ram_gib),
        ctx_text(p.context_length),
        p.description@,
    )
}

/// The rows of a list of presets.
pub open spec fn preset_rows(list: Seq<ModelPreset>) -> Seq<char>
    decreases list.len(),
{
    if list.len() == 0 {
        Seq::empty()
    } else {
        preset_rows(list.drop_last()) + preset_row(list.last())
    }
}

/// What stands below the listing.
pub const LISTING_TAIL: &'static str = "\nSelect with: --preset <name>, model_preset = \"<name>\" in config.toml,\nor LLM_BACKEND_MODEL_PRESET=<name>.\n";

/// The listing of the presets.
pub open spec fn listing() -> Seq<char> {
    "Available model presets:\n\n"@ + row(
        "NAME"@,
        "SIZE"@,
        "MIN RAM"@,
        "CTX"@,
        "DESCRIPTION"@,
    ) + row("----"@, "----"@, "-------"@, "---"@, "-----------"@) + preset_rows(
        preset_list(),
    ) + LISTING_TAIL@
}

/// So many spaces.
fn blank(n: usize) -> (out: String)
    ensures
        out@ == spaces(n as int),
{
    let mut out = String::new();
    let mut i: usize = 0;
    while i < n
        invariant
            i <= n,
            out@ == spaces(i as int),
        decreases n - i,
    {
        out.push(' ');
        assert(out@ =~= spaces(i + 1));
        i = i + 1;
    }
    out
}

/// How many spaces bring a text to a width.
fn missing(s: &str, width: usize) -> (n: usize)
    ensures
        spaces(n as int) == spaces(width - s@.len()),
{
    let chars = chars_of(s);
    if chars.len() < width {
        width - chars.len()
    } else {
        assert(spaces(0) =~= spaces(width - s@.len()));
        0
    }
}

/// A text brought to a width with spaces behind it.
fn pad_left(s: &str, width: usize) -> (out: String)
    ensures
        out@ == left(s@, width as int),
{
    let mut out = s.to_owned();
    out.append(blank(missing(s, width)).as_str());
    out
}

/// A text brought to a width with spaces before it.
fn pad_right(s: &str, width: usize) -> (out: String)
    ensures
        out@ == right(s@, width as int),
{
    let mut out = blank(missing(s, width));
    out.append(s);
    out
}

/// One row of the listing.
fn render_row(name: &str, size: &str, ram: &str, ctx: &str, description: &str) -> (out: String)
    ensures
        out@ == row(name@, size@, ram@, ctx@, description@),
{
    let mut out = "  ".to_owned();
    out.append(pad_left(name, 24).as_str());
    out.append("  ");
    out.append(pad_right(size, 9).as_str());
    out.append("  ");
    out.append(pad_right(ram, 7).as_str());
    out.append("  ");
    out.append(pad_right(ctx, 9).as_str());
    out.append("  ");
    out.append(description);
    out.append("\n");
    out
}

/// A size as it is shown.
fn render_size(mib: u32) -> (out: String)
    ensures
        out@ == size_text(mib),
{
    if mib >= 1024 {
        let tenths: u64 = (mib as u64 * 10 + 512) / 1024;
        let mut out = decimal_of(tenths / 10);
        out.append(".");
        out.append(decimal_of(tenths % 10).as_str());
        out.append(" GiB");
        out
    } else {
        let mut out = decimal_of(mib as u64);
        out.append(" MiB");
        out
    }
}

/// The row of a preset.
fn render_preset(p: &ModelPreset) -> (out: String)
    ensures
        out@ == preset_row(*p),
{
    let size = render_size(p.approx_size_mib);
    let mut ram = decimal_of(p.min_ram_gib as u64);
    ram.append(" GB");
    let mut ctx = decimal_of((p.context_length / 1024) as u64);
    ctx.append("K");
    render_row(p.name, size.as_str(), ram.as_str(), ctx.as_str(), p.description)
}

/// Renders the catalog as an aligned table.
pub fn render_listing() -> (out: String)
    ensures
        out@ == listing(),
{
    let mut out = "Available model presets:\n\n".to_owned();
    out.append(
        render_row("NAME", "SIZE", "MIN RAM", "CTX", "DESCRIPTION").as_str(),
    );
    out.append(
        render_row("----", "----", "-------", "---", "-----------").as_str(),
    );
    let ghost lead = out@;
    let list = presets();
    let mut i: usize = 0;
    assert(list@.take(0) =~= Seq::<ModelPreset>::empty());
    assert(lead + preset_rows(list@.take(0)) =~= lead);
    while i < list.len()
        invariant
            i <= list@.len(),
            out@ == lead + preset_rows(list@.take(i as int)),
        decreases list@.len() - i,
    {
        assert(list@.take(i + 1).drop_last() =~= list@.take(i as int));
        out.append(render_preset(&list[i]).as_str());
        assert(out@ =~= lead + preset_rows(list@.take(i + 1)));
        i = i + 1;
    }
    assert(list@.take(list@.len() as int) =~= list@);
    out.append(LISTING_TAIL);
    out
}

// ---------------------------------------------------------------------------
// Laws
// ---------------------------------------------------------------------------

/// The names and the files of the presets, spelled out.
proof fn lemma_spelling()
    ensures
        preset_list().len() == 6,
        preset_list()[0].name@.len() == 13,
        preset_list()[0].name@[0] == 'q',
        preset_list()[0].name@[11] == '3',
        preset_list()[1].name@.len() == 13,
        preset_list()[1].name@[0] == 'q',
        preset_list()[1].name@[11] == '7',
        preset_list()[2].name@.len() == 14,
        preset_list()[2].name@[11] == '1',
        preset_list()[3].name@.len() == 14,
        preset_list()[3].name@[11] == '3',
        preset_list()[4].name@.len() == 22,
        preset_list()[5].name@.len() == 13,
        preset_list()[5].name@[0] == 'c',
        preset_list()[0].filename@.len() == 37,
        preset_list()[0].filename@[14] == '3',
        preset_list()[1].filename@.len() == 37,
        preset_list()[1].filename@[14] == '7',
        preset_list()[2].filename@.len() == 38,
        preset_list()[2].filename@[14] == '1',
        preset_list()[3].filename@.len() == 38,
        preset_list()[3].filename@[14] == '3',
        preset_list()[4].filename@.len() == 43,
        preset_list()[5].filename@.len() == 30,
{
    reveal_strlit("qwen-coder-3b");
    reveal_strlit("qwen-coder-7b");
    reveal_strlit("qwen-coder-14b");
    reveal_strlit("qwen-coder-32b");
    reveal_strlit("deepseek-coder-v2-lite");
    reveal_strlit("codestral-22b");
    reveal_strlit("qwen2.5-coder-3b-instruct-q4_k_m.gguf");
    reveal_strlit("qwen2.5-coder-7b-instruct-q4_k_m.gguf");
    reveal_strlit("qwen2.5-coder-14b-instruct-q4_k_m.gguf");
    reveal_strlit("qwen2.5-coder-32b-instruct-q4_k_m.gguf");
    reveal_strlit("DeepSeek-Coder-V2-Lite-Instruct-Q4_K_M.gguf");
    reveal_strlit("Codestral-22B-v0.1-Q4_K_M.gguf");
}

/// The column that the descriptions of the listing start in.
pub const DESCRIPTION_COLUMN: usize = 59;

/// The listing is aligned: in the header, in the rule below it and in the row of every
/// preset the description starts in the same column.
pub proof fn law_listing_aligned(i: int)
    requires
        0 <= i < preset_list().len(),
    ensures
        row_head("NAME"@, "SIZE"@, "MIN RAM"@, "CTX"@).len() == DESCRIPTION_COLUMN,
        row_head("----"@, "----"@, "-------"@, "---"@).len() == DESCRIPTION_COLUMN,
        ({
            let p = preset_list()[i];
            row_head(
                p.name@,
                size_text(p.approx_size_mib),
                ram_text(p.min_ram_gib),
                ctx_text(p.context_length),
            ).len() == DESCRIPTION_COLUMN
        }),
{
    lemma_spelling();
    reveal_strlit("  ");
    reveal_strlit("NAME");
    reveal_strlit("SIZE");
    reveal_strlit("MIN RAM");
    reveal_strlit("CTX");
    reveal_strlit("----");
    reveal_strlit("-------");
    reveal_strlit("---");
    reveal_strlit(".");
    reveal_strlit(" GiB");
    reveal_strlit(" GB");
    reveal_strlit("K");
    let p = preset_list()[i];
    let tenths = (p.approx_size_mib as nat * 10 + 512) / 1024;
    text::lemma_decimal_short(tenths / 10);
    text::lemma_decimal_short(tenths % 10);
    text::lemma_decimal_short(p.min_ram_gib as nat);
    text::lemma_decimal_short((p.context_length / 1024) as nat);
}

/// No two presets go by the same name, whatever the case of its letters.
pub proof fn law_preset_names_distinct(i: int, j: int)
    requires
        0 <= i < j < preset_list().len(),
    ensures
        !goes_by(preset_list()[i], preset_list()[j].name@),
{
    lemma_spelling();
    let a = text::ascii_lower_text(preset_list()[i].name@);
    let b = text::ascii_lower_text(preset_list()[j].name@);
    assert(a.len() == preset_list()[i].name@.len());
    assert(b.len() == preset_list()[j].name@.len());
    assert(a[0] == text::ascii_lower(preset_list()[i].name@[0]));
    assert(b[0] == text::ascii_lower(preset_list()[j].name@[0]));
    assert(a[11] == text::ascii_lower(preset_list()[i].name@[11]));
    assert(b[11] == text::ascii_lower(preset_list()[j].name@[11]));
}

/// No two presets are the same file.
pub proof fn law_preset_files_distinct(i: int, j: int)
    requires
        0 <= i < j < preset_list().len(),
    ensures
        preset_list()[i].filename@ != preset_list()[j].filename@,
{
    lemma_spelling();
    assert(preset_list()[i].filename@[14] == preset_list()[i].filename@[14]);
    assert(preset_list()[j].filename@[14] == preset_list()[j].filename@[14]);
}

/// Every preset is found under its name, however its letters are cased.
pub proof fn law_preset_found_by_name(i: int, name: Seq<char>)
    requires
        0 <= i < preset_list().len(),
        goes_by(preset_list()[i], name),
    ensures
        first_named(preset_list(), name) == Some(preset_list()[i]),
{
    assert forall|k: int| 0 <= k < i implies !goes_by(#[trigger] preset_list()[k], name) by {
        law_preset_names_distinct(k, i);
    }
    lemma_first_named(preset_list(), i, name);
}

proof fn lemma_first_named(list: Seq<ModelPreset>, i: int, name: Seq<char>)
    requires
        0 <= i < list.len(),
        goes_by(list[i], name),
        forall|k: int| 0 <= k < i ==> !goes_by(#[trigger] list[k], name),
    ensures
        first_named(list, name) == Some(list[i]),
    decreases list.len(),
{
    if i > 0 {
        assert(!goes_by(list[0], name));
        assert forall|k: int| 0 <= k < i - 1 implies !goes_by(
            #[trigger] list.drop_first()[k],
            name,
        ) by {
            assert(list.drop_first()[k] == list[k + 1]);
        }
        lemma_first_named(list.drop_first(), i - 1, name);
    }
}

/// No preset goes by the name of a model file: a text that ends in an `f`, as `.gguf`
/// does.
pub proof fn law_model_file_is_no_preset_name(name: Seq<char>)
    requires
        name.len() > 0,
        name.last() == 'f',
    ensures
        first_named(preset_list(), name) is None,
{
    lemma_last_letters();
    let list = preset_list();
    let low = text::ascii_lower_text(name);
    assert(low.len() == name.len());
    assert(low[name.len() - 1] == text::ascii_lower(name[name.len() - 1]));
    assert forall|k: int| 0 <= k < list.len() implies !goes_by(#[trigger] list[k], name) by {
        let n = list[k].name@;
        let m = text::ascii_lower_text(n);
        assert(m.len() == n.len());
        assert(m[n.len() - 1] == text::ascii_lower(n[n.len() - 1]));
    }
    lemma_none_named(list, name);
}

pub proof fn lemma_none_named(list: Seq<ModelPreset>, name: Seq<char>)
    requires
        forall|k: int| 0 <= k < list.len() ==> !goes_by(#[trigger] list[k], name),
    ensures
        first_named(list, name) is None,
    decreases list.len(),
{
    if list.len() > 0 {
        assert(!goes_by(list[0], name));
        assert forall|k: int| 0 <= k < list.drop_first().len() implies !goes_by(
            #[trigger] list.drop_first()[k],
            name,
        ) by {
            assert(list.drop_first()[k] == list[k + 1]);
        }
        lemma_none_named(list.drop_first(), name);
    }
}

/// Every preset comes from a repo.
pub proof fn lemma_repos()
    ensures
        forall|k: int|
            0 <= k < preset_list().len() ==> (#[trigger] preset_list()[k]).repo@.len() > 0,
{
    reveal_strlit("Qwen/Qwen2.5-Coder-3B-Instruct-GGUF");
    reveal_strlit("Qwen/Qwen2.5-Coder-7B-Instruct-GGUF");
    reveal_strlit("Qwen/Qwen2.5-Coder-14B-Instruct-GGUF");
    reveal_strlit("Qwen/Qwen2.5-Coder-32B-Instruct-GGUF");
    reveal_strlit("bartowski/DeepSeek-Coder-V2-Lite-Instruct-GGUF");
    reveal_strlit("bartowski/Codestral-22B-v0.1-GGUF");
}

/// What the names of the presets end in.
proof fn lemma_last_letters()
    ensures
        forall|k: int|
            0 <= k < preset_list().len() ==> (#[trigger] preset_list()[k]).name@.len() > 0 && (
            preset_list()[k].name@.last() == 'b' || preset_list()[k].name@.last() == 'e'),
{
    reveal_strlit("qwen-coder-3b");
    reveal_strlit("qwen-coder-7b");
    reveal_strlit("qwen-coder-14b");
    reveal_strlit("qwen-coder-32b");
    reveal_strlit("deepseek-coder-v2-lite");
    reveal_strlit("codestral-22b");
    assert(preset_list()[0].name@[12] == 'b');
    assert(preset_list()[1].name@[12] == 'b');
    assert(preset_list()[2].name@[13] == 'b');
    assert(preset_list()[3].name@[13] == 'b');
    assert(preset_list()[4].name@[21] == 'e');
    assert(preset_list()[5].name@[12] == 'b');
}

/// The defaults are the preset `qwen-coder-7b`.
pub proof fn law_default_model_is_a_preset()
    ensures
        first_named(preset_list(), "qwen-coder-7b"@) matches Some(p) && p.repo@
            == crate::config::DEFAULT_REPO@ && p.filename@ == crate::config::DEFAULT_FILENAME@
            && p.context_length == DEFAULT_CONTEXT_LENGTH,
{
    law_preset_found_by_name(1, "qwen-coder-7b"@);
}

/// A name on the command line goes before one in the configuration, whatever either says.
pub proof fn law_command_line_first(cli: Option<String>, settings: Settings)
    ensures
        cli is Some ==> wanted(cli, settings) == cli,
        cli is None ==> wanted(cli, settings) == settings.model_preset,
{
}

/// A preset goes by its name in any case of its letters, and by no other name.
pub proof fn law_preset_names_in_any_case(p: ModelPreset, name: Seq<char>)
    ensures
        goes_by(p, name) <==> name.len() == p.name@.len() && forall|i: int|
            0 <= i < name.len() ==> text::same_but_case(#[trigger] name[i], p.name@[i]),
{
    text::law_case_aside(name, p.name@);
}

/// A text is brought to its width with spaces, on the right or on the left of it, and one that
/// is wider stays as it is.
pub proof fn law_texts_are_padded(s: Seq<char>, width: nat, i: int)
    ensures
        s.is_prefix_of(left(s, width as int)),
        s.is_suffix_of(right(s, width as int)),
        s.len() >= width ==> left(s, width as int) == s && right(s, width as int) == s,
        s.len() < width ==> left(s, width as int).len() == width && right(s, width as int).len()
            == width,
        s.len() <= i < width ==> left(s, width as int)[i] == ' ',
        0 <= i < width - s.len() ==> right(s, width as int)[i] == ' ',
{
    let l = left(s, width as int);
    let r = right(s, width as int);
    assert(s =~= l.subrange(0, s.len() as int));
    assert(s =~= r.subrange(r.len() - s.len(), r.len() as int));
    if s.len() >= width {
        assert(l =~= s);
        assert(r =~= s);
    }
}

/// A size of a GiB or more is shown to the nearest tenth of a GiB, and a smaller one in MiB.
pub proof fn law_sizes_are_rounded(mib: u32)
    ensures
        mib < 1024 ==> size_text(mib) == text::decimal(mib as nat) + " MiB"@,
        mib >= 1024 ==> exists|whole: nat, tenth: nat| #[trigger]
            shows_gib(size_text(mib), whole, tenth) && tenth < 10 && -512 <= 10 * mib - 1024 * (10
                * whole + tenth) <= 512,
{
    if mib >= 1024 {
        let tenths = (mib as nat * 10 + 512) / 1024;
        assert(10 * (tenths / 10) + tenths % 10 == tenths);
        assert(shows_gib(size_text(mib), tenths / 10, tenths % 10));
    }
}

/// A text shows so many GiB and tenths of one.
pub open spec fn shows_gib(t: Seq<char>, whole: nat, tenth: nat) -> bool {
    t == text::decimal(whole) + "."@ + text::decimal(tenth) + " GiB"@
}

/// Every preset has its row, in the order of the presets: its name, its size, its memory and
/// its context length in their columns, and its description.
pub proof fn law_each_preset_has_its_row(list: Seq<ModelPreset>, p: ModelPreset)
    ensures
        preset_rows(list.push(p)) == preset_rows(list) + "  "@ + left(p.name@, 24) + "  "@ + right(
            size_text(p.approx_size_mib),
            9,
        ) + "  "@ + right(text::decimal(p.min_ram_gib as nat) + " GB"@, 7) + "  "@ + right(
            text::decimal((p.context_length / 1024) as nat) + "K"@,
            9,
        ) + "  "@ + p.description@ + "\n"@,
{
    assert(list.push(p).drop_last() =~= list);
    assert(preset_rows(list.push(p)) =~= preset_rows(list) + "  "@ + left(p.name@, 24) + "  "@
        + right(size_text(p.approx_size_mib), 9) + "  "@ + right(
        text::decimal(p.min_ram_gib as nat) + " GB"@,
        7,
    ) + "  "@ + right(text::decimal((p.context_length / 1024) as nat) + "K"@, 9) + "  "@
        + p.description@ + "\n"@);
}

} // verus!
