use vstd::prelude::*;
use crate::archive::{decompress_zip, is_zip, spec_is_zip, zip_first_entry, MAX_DECOMPRESSED_SIZE};
use crate::Error;
use crate::control::decoder::{decode_all, decode_bytes};
use vstd::array::spec_array_update;
use crate::text::{
    digit_val, is_whitespace, is_ws, parse_int, parse_radix, split_whitespace, split_ws,
    split_ws_from, views, trim_end, trim_end_len, trim_start,
    trim_start_pos,
};
use vstd::slice::slice_subrange;
use vstd::utf8::{decode_utf8, valid_utf8};
use crate::text::{lines_from, lines_of, next_newline, utf8_to_chars};

verus! {

/// A single transformation command within a stage.
#[derive(Debug, Clone, Copy, PartialEq, Eq, Structural)]
pub enum FlcCommand {
    Single { input: i32, output: i32 },
    /// Range transformation: maps input_start..=input_end to output_start..=output_end.
    /// output_end is kept for the range-size check; both ranges have the same size.
    Range { input_start: i32, input_end: i32, output_start: i32, output_end: i32 },
}

/// A command as parsing makes it: a range has equal input and output sizes, each an `i32`.
pub open spec fn command_wf(c: FlcCommand) -> bool {
    match c {
        FlcCommand::Single { .. } => true,
        FlcCommand::Range { input_start, input_end, output_start, output_end } => {
            &&& input_end - input_start == output_end - output_start
            &&& i32::MIN <= input_end - input_start <= i32::MAX
        },
    }
}

/// What a command makes of `code`, if it applies to it.
pub open spec fn command_apply(c: FlcCommand, code: i32) -> Option<i32> {
    match c {
        FlcCommand::Single { input, output } => if code == input {
            Some(output)
        } else {
            None
        },
        FlcCommand::Range { input_start, input_end, output_start, .. } => if input_start <= code
            <= input_end {
            Some((output_start + (code - input_start)) as i32)
        } else {
            None
        },
    }
}

/// What a stage makes of `code`: the result of its first command that applies, if any.
pub open spec fn stage_apply(cmds: Seq<FlcCommand>, code: i32) -> Option<i32>
    decreases cmds.len(),
{
    if cmds.len() == 0 {
        None
    } else {
        match command_apply(cmds[0], code) {
            Some(x) => Some(x),
            None => stage_apply(cmds.drop_first(), code),
        }
    }
}

/// `code` passed through each stage in turn; a stage with no applying command leaves it.
pub open spec fn stages_apply(stages: Seq<Seq<FlcCommand>>, code: i32) -> i32
    decreases stages.len(),
{
    if stages.len() == 0 {
        code
    } else {
        let next = match stage_apply(stages[0], code) {
            Some(x) => x,
            None => code,
        };
        stages_apply(stages.drop_first(), next)
    }
}

/// `code` passed through each control file in turn.
pub open spec fn files_apply(files: Seq<Seq<Seq<FlcCommand>>>, code: i32) -> i32
    decreases files.len(),
{
    if files.len() == 0 {
        code
    } else {
        files_apply(files.drop_first(), stages_apply(files[0], code))
    }
}

/// One transformation stage, consisting of a sequence of commands.
/// Within a stage, only the first matching command is applied.
#[derive(Debug)]
pub struct TransformationStage {
    commands: Vec<FlcCommand>,
}

impl Clone for TransformationStage {
    fn clone(&self) -> (r: Self)
        ensures
            r.cmds() == self.cmds(),
    {
        let mut commands: Vec<FlcCommand> = Vec::new();
        let mut i: usize = 0;
        while i < self.commands.len()
            invariant
                i <= self.commands@.len(),
                commands@ == self.commands@.take(i as int),
            decreases self.commands@.len() - i,
        {
            commands.push(self.commands[i]);
            i = i + 1;
            assert(commands@ =~= self.commands@.take(i as int));
        }
        assert(self.commands@.take(i as int) =~= self.commands@);
        TransformationStage { commands }
    }
}

impl TransformationStage {
    /// The commands of this stage, in order.
    pub closed spec fn cmds(&self) -> Seq<FlcCommand> {
        self.commands@
    }

    fn apply(&self, code: i32) -> (r: Option<i32>)
        requires
            forall|i: int| 0 <= i < self.cmds().len() ==> command_wf(#[trigger] self.cmds()[i]),
        ensures
            r == stage_apply(self.cmds(), code),
    {
        let mut i: usize = 0;
        assert(self.commands@.skip(0) =~= self.commands@);
        while i < self.commands.len()
            invariant
                i <= self.commands@.len(),
                forall|j: int| 0 <= j < self.commands@.len() ==> command_wf(#[trigger] self.commands@[j]),
                stage_apply(self.commands@, code) == stage_apply(self.commands@.skip(i as int), code),
            decreases self.commands@.len() - i,
        {
            let ghost rest = self.commands@.skip(i as int);
            assert(rest.drop_first() =~= self.commands@.skip(i + 1));
            assert(rest[0] == self.commands@[i as int]);
            let cmd = self.commands[i];
            match cmd {
                FlcCommand::Single { input, output } => {
                    if code == input {
                        return Some(output);
                    }
                },
                FlcCommand::Range { input_start, input_end, output_start, output_end: _ } => {
                    if code >= input_start && code <= input_end {
                        assert(command_wf(cmd));
                        let offset = code - input_start;
                        return Some(output_start + offset);
                    }
                },
            }
            i = i + 1;
        }
        None
    }
}

/// Input encoding mode for multi-byte character processing.
#[derive(Debug, Clone, Copy, PartialEq, Eq, Structural)]
pub enum InputEncoding {
    Default,
    HZ,
    ShiftJIS,
    Dbcs,
    UTF8,
}


/// Size of an ISO 2022 character set.
#[derive(Debug, Clone, Copy, PartialEq, Eq, Structural)]
pub enum Iso2022CharSetSize {
    Bits94,
    Bits96,
    Bits94x94,
}

/// An ISO 2022 character set assignment.
#[derive(Debug, Clone, Copy, PartialEq, Eq, Structural)]
pub struct Iso2022CharSet {
    pub size: Iso2022CharSetSize,
    pub designating_byte: i32,
}

/// Accumulated ISO 2022 settings from "g" commands.
#[derive(Debug, Clone, Copy)]
pub struct Iso2022Settings {
    pub g_sets: [Option<Iso2022CharSet>; 4],
    pub left_half: i32,
    pub right_half: i32,
}

/// The settings before any "g" command: G0 is ASCII ('B', 94 characters) and G1 the
/// Latin-1 upper half ('A', 96 characters); G0 is in the left half and G1 in the right.
pub open spec fn default_iso2022() -> Iso2022Settings {
    Iso2022Settings {
        g_sets: [
            Some(Iso2022CharSet { size: Iso2022CharSetSize::Bits94, designating_byte: 66 }),
            Some(Iso2022CharSet { size: Iso2022CharSetSize::Bits96, designating_byte: 65 }),
            None,
            None,
        ],
        left_half: 0,
        right_half: 1,
    }
}

impl Default for Iso2022Settings {
    fn default() -> (s: Self)
        ensures
            s == default_iso2022(),
    {
        Self {
            g_sets: [
                Some(Iso2022CharSet { size: Iso2022CharSetSize::Bits94, designating_byte: 66 }),
                Some(Iso2022CharSet { size: Iso2022CharSetSize::Bits96, designating_byte: 65 }),
                None,
                None,
            ],
            left_half: 0,
            right_half: 1,
        }
    }
}

/// The commands of each stage, in order.
pub open spec fn stage_views(stages: Seq<TransformationStage>) -> Seq<Seq<FlcCommand>> {
    stages.map_values(|st: TransformationStage| st.cmds())
}

/// Every command of every stage is as parsing makes it.
pub open spec fn stages_wf(stages: Seq<Seq<FlcCommand>>) -> bool {
    forall|i: int, j: int|
        0 <= i < stages.len() && 0 <= j < stages[i].len() ==> command_wf(#[trigger] stages[i][j])
}

/// A parsed FIGfont control file (.flc).
#[derive(Debug)]
pub struct Flc {
    stages: Vec<TransformationStage>,
    encoding: InputEncoding,
    iso2022: Iso2022Settings,
}

impl Clone for Flc {
    fn clone(&self) -> (r: Self)
        ensures
            r.stage_cmds() == self.stage_cmds(),
            r.spec_encoding() == self.spec_encoding(),
            r.spec_iso2022() == self.spec_iso2022(),
    {
        proof { use_type_invariant(self); }
        let mut stages: Vec<TransformationStage> = Vec::new();
        let mut i: usize = 0;
        while i < self.stages.len()
            invariant
                i <= self.stages@.len(),
                stages@.len() == i,
                stage_views(stages@) == stage_views(self.stages@).take(i as int),
            decreases self.stages@.len() - i,
        {
            let st = self.stages[i].clone();
            assert(st.cmds() == self.stages@[i as int].cmds());
            let ghost before = stages@;
            stages.push(st);
            assert(stages@ == before.push(st));
            assert forall|k: int| 0 <= k < i implies #[trigger] stage_views(stages@)[k]
                == stage_views(self.stages@)[k] by {
                assert(stages@[k] == before[k]);
                assert(stage_views(stages@)[k] == stages@[k].cmds());
                assert(stage_views(before)[k] == before[k].cmds());
                assert(stage_views(before)[k] == stage_views(self.stages@).take(i as int)[k]);
            }
            i = i + 1;
            assert(stage_views(stages@) =~= stage_views(self.stages@).take(i as int));
        }
        assert(stage_views(self.stages@).take(i as int) =~= stage_views(self.stages@));
        Flc { stages, encoding: self.encoding, iso2022: self.iso2022 }
    }
}

impl Flc {
    #[verifier::type_invariant]
    spec fn inv(self) -> bool {
        &&& self.stages@.len() >= 1
        &&& stages_wf(stage_views(self.stages@))
    }

    /// The commands of each transformation stage, in order.
    pub closed spec fn stage_cmds(&self) -> Seq<Seq<FlcCommand>> {
        stage_views(self.stages@)
    }

    /// The input encoding that the file selects.
    pub closed spec fn spec_encoding(&self) -> InputEncoding {
        self.encoding
    }

    /// The ISO 2022 settings that the file's "g" commands make.
    pub closed spec fn spec_iso2022(&self) -> Iso2022Settings {
        self.iso2022
    }

    /// Apply all transformation stages to a character code.
    pub fn apply(&self, code: i32) -> (r: i32)
        ensures
            r == stages_apply(self.stage_cmds(), code),
    {
        proof { use_type_invariant(self); }
        let mut result = code;
        let mut i: usize = 0;
        assert(stage_views(self.stages@).skip(0) =~= stage_views(self.stages@));
        while i < self.stages.len()
            invariant
                i <= self.stages@.len(),
                stages_wf(stage_views(self.stages@)),
                stages_apply(stage_views(self.stages@), code) == stages_apply(
                    stage_views(self.stages@).skip(i as int),
                    result,
                ),
            decreases self.stages@.len() - i,
        {
            let ghost rest = stage_views(self.stages@).skip(i as int);
            assert(rest.drop_first() =~= stage_views(self.stages@).skip(i + 1));
            assert(rest[0] == self.stages@[i as int].cmds());
            let stage = &self.stages[i];
            assert forall|j: int| 0 <= j < stage.cmds().len() implies command_wf(#[trigger] stage.cmds()[j]) by {
                assert(stage_views(self.stages@)[i as int] == stage.cmds());
            }
            if let Some(mapped) = stage.apply(result) {
                result = mapped;
            }
            i = i + 1;
        }
        assert(stage_views(self.stages@).skip(i as int) =~= Seq::<Seq<FlcCommand>>::empty());
        result
    }

    /// Get the configured input encoding.
    pub fn encoding(&self) -> (e: InputEncoding)
        ensures
            e == self.spec_encoding(),
    {
        self.encoding
    }

    /// Get the accumulated ISO 2022 settings.
    pub fn iso2022_settings(&self) -> (s: &Iso2022Settings)
        ensures
            *s == self.spec_iso2022(),
    {
        &self.iso2022
    }
}

/// The commands of each stage of each file, in order.
pub open spec fn file_views(files: Seq<Flc>) -> Seq<Seq<Seq<FlcCommand>>> {
    files.map_values(|f: Flc| f.stage_cmds())
}

/// Pipeline for chaining multiple control files together.
#[derive(Debug)]
pub struct Control {
    files: Vec<Flc>,
    encoding: InputEncoding,
}

impl Clone for Control {
    fn clone(&self) -> (r: Self)
        ensures
            r.file_cmds() == self.file_cmds(),
            r.spec_encoding() == self.spec_encoding(),
    {
        let mut files: Vec<Flc> = Vec::new();
        let mut i: usize = 0;
        while i < self.files.len()
            invariant
                i <= self.files@.len(),
                files@.len() == i,
                file_views(files@) == file_views(self.files@).take(i as int),
            decreases self.files@.len() - i,
        {
            let f = self.files[i].clone();
            let ghost before = files@;
            files.push(f);
            assert forall|k: int| 0 <= k < i implies #[trigger] file_views(files@)[k]
                == file_views(self.files@)[k] by {
                assert(files@[k] == before[k]);
                assert(file_views(before)[k] == file_views(self.files@).take(i as int)[k]);
            }
            i = i + 1;
            assert(file_views(files@) =~= file_views(self.files@).take(i as int));
        }
        assert(file_views(self.files@).take(i as int) =~= file_views(self.files@));
        Control { files, encoding: self.encoding }
    }
}

/// The encoding of a pipeline of control files: the last encoding command across the
/// pipeline wins. Every encoding command selects an encoding other than the default, so a
/// file whose encoding is the default has none and leaves the choice of earlier files
/// standing; with no encoding command at all the pipeline reads the default encoding.
pub open spec fn pipeline_encoding(files: Seq<Flc>) -> InputEncoding
    decreases files.len(),
{
    if files.len() == 0 {
        InputEncoding::Default
    } else if files.last().spec_encoding() != InputEncoding::Default {
        files.last().spec_encoding()
    } else {
        pipeline_encoding(files.drop_last())
    }
}

/// A control file without an encoding command, added at the end of a pipeline, leaves the
/// pipeline's encoding as it was; one with an encoding command decides it.
pub proof fn law_pipeline_last_encoding_command_wins(files: Seq<Flc>, f: Flc)
    ensures
        f.spec_encoding() == InputEncoding::Default ==> pipeline_encoding(files.push(f))
            == pipeline_encoding(files),
        f.spec_encoding() != InputEncoding::Default ==> pipeline_encoding(files.push(f))
            == f.spec_encoding(),
{
    assert(files.push(f).drop_last() =~= files);
}

impl Control {
    /// The commands of each stage of each control file, in order.
    pub closed spec fn file_cmds(&self) -> Seq<Seq<Seq<FlcCommand>>> {
        file_views(self.files@)
    }

    /// The effective input encoding.
    pub closed spec fn spec_encoding(&self) -> InputEncoding {
        self.encoding
    }

    /// Create a pipeline from parsed control files, applied in the given order.
    pub fn from_files(files: Vec<Flc>) -> (c: Self)
        ensures
            c.file_cmds() == file_views(files@),
            c.spec_encoding() == pipeline_encoding(files@),
    {
        let mut encoding = InputEncoding::Default;
        let mut i: usize = 0;
        while i < files.len()
            invariant
                i <= files@.len(),
                encoding == pipeline_encoding(files@.take(i as int)),
            decreases files@.len() - i,
        {
            let e = files[i].encoding();
            assert(files@.take(i + 1).drop_last() =~= files@.take(i as int));
            assert(files@.take(i + 1).last() == files@[i as int]);
            match e {
                InputEncoding::Default => {},
                _ => {
                    encoding = e;
                },
            }
            i = i + 1;
        }
        assert(files@.take(i as int) =~= files@);
        Control { files, encoding }
    }

    /// Apply all transformations across all files in order.
    pub fn apply(&self, code: i32) -> (r: i32)
        ensures
            r == files_apply(self.file_cmds(), code),
    {
        let mut result = code;
        let mut i: usize = 0;
        assert(file_views(self.files@).skip(0) =~= file_views(self.files@));
        while i < self.files.len()
            invariant
                i <= self.files@.len(),
                files_apply(file_views(self.files@), code) == files_apply(
                    file_views(self.files@).skip(i as int),
                    result,
                ),
            decreases self.files@.len() - i,
        {
            let ghost rest = file_views(self.files@).skip(i as int);
            assert(rest.drop_first() =~= file_views(self.files@).skip(i + 1));
            assert(rest[0] == self.files@[i as int].stage_cmds());
            result = self.files[i].apply(result);
            i = i + 1;
        }
        assert(file_views(self.files@).skip(i as int) =~= Seq::<Seq<Seq<FlcCommand>>>::empty());
        result
    }

    /// Get the effective encoding (last encoding command wins).
    pub fn encoding(&self) -> (e: InputEncoding)
        ensures
            e == self.spec_encoding(),
    {
        self.encoding
    }

    /// Decode a line of input bytes into character codes, in the pipeline's encoding.
    pub fn decode_bytes(&self, bytes: &[u8]) -> (codes: Vec<i32>)
        ensures
            codes@ == decode_all(self.spec_encoding(), bytes@),
    {
        decode_bytes(bytes, self.encoding)
    }
}

/// Within a stage only the first command that applies counts: later ones are not consulted.
pub proof fn law_first_match_wins(cmds: Seq<FlcCommand>, code: i32, j: int)
    requires
        0 <= j < cmds.len(),
        command_apply(cmds[j], code) is Some,
        forall|i: int| 0 <= i < j ==> command_apply(#[trigger] cmds[i], code) is None,
    ensures
        stage_apply(cmds, code) == command_apply(cmds[j], code),
    decreases j,
{
    if j > 0 {
        assert forall|i: int| 0 <= i < j - 1 implies command_apply(
            #[trigger] cmds.drop_first()[i],
            code,
        ) is None by {
            assert(cmds.drop_first()[i] == cmds[i + 1]);
        }
        law_first_match_wins(cmds.drop_first(), code, j - 1);
    }
}

/// A code that no command of any stage applies to comes out unchanged.
pub proof fn law_unmatched_code_is_unchanged(stages: Seq<Seq<FlcCommand>>, code: i32)
    requires
        forall|i: int, j: int|
            0 <= i < stages.len() && 0 <= j < stages[i].len() ==> command_apply(
                #[trigger] stages[i][j],
                code,
            ) is None,
    ensures
        stages_apply(stages, code) == code,
    decreases stages.len(),
{
    if stages.len() > 0 {
        lemma_stage_no_match(stages[0], code);
        assert forall|i: int, j: int|
            0 <= i < stages.drop_first().len() && 0 <= j < stages.drop_first()[i].len() implies command_apply(
            #[trigger] stages.drop_first()[i][j],
            code,
        ) is None by {
            assert(stages.drop_first()[i] == stages[i + 1]);
        }
        law_unmatched_code_is_unchanged(stages.drop_first(), code);
    }
}

proof fn lemma_stage_no_match(cmds: Seq<FlcCommand>, code: i32)
    requires
        forall|j: int| 0 <= j < cmds.len() ==> command_apply(#[trigger] cmds[j], code) is None,
    ensures
        stage_apply(cmds, code) is None,
    decreases cmds.len(),
{
    if cmds.len() > 0 {
        assert(command_apply(cmds[0], code) is None);
        assert forall|j: int| 0 <= j < cmds.drop_first().len() implies command_apply(
            #[trigger] cmds.drop_first()[j],
            code,
        ) is None by {
            assert(cmds.drop_first()[j] == cmds[j + 1]);
        }
        lemma_stage_no_match(cmds.drop_first(), code);
    }
}

/// Stages run in sequence: the stages after a freeze see what the stages before it made.
pub proof fn law_stages_compose(s1: Seq<Seq<FlcCommand>>, s2: Seq<Seq<FlcCommand>>, code: i32)
    ensures
        stages_apply(s1 + s2, code) == stages_apply(s2, stages_apply(s1, code)),
    decreases s1.len(),
{
    if s1.len() > 0 {
        assert((s1 + s2).drop_first() =~= s1.drop_first() + s2);
        assert((s1 + s2)[0] == s1[0]);
        let next = match stage_apply(s1[0], code) {
            Some(x) => x,
            None => code,
        };
        law_stages_compose(s1.drop_first(), s2, next);
    } else {
        assert(s1 + s2 =~= s2);
    }
}

/// A pipeline of control files is their composition: the files after see what the
/// files before made.
pub proof fn law_pipeline_composes(
    f1: Seq<Seq<Seq<FlcCommand>>>,
    f2: Seq<Seq<Seq<FlcCommand>>>,
    code: i32,
)
    ensures
        files_apply(f1 + f2, code) == files_apply(f2, files_apply(f1, code)),
    decreases f1.len(),
{
    if f1.len() > 0 {
        assert((f1 + f2).drop_first() =~= f1.drop_first() + f2);
        assert((f1 + f2)[0] == f1[0]);
        law_pipeline_composes(f1.drop_first(), f2, stages_apply(f1[0], code));
    } else {
        assert(f1 + f2 =~= f2);
    }
}

/// A range command maps the k-th code of its input range to the k-th code of its output range.
pub proof fn law_range_maps_by_offset(c: FlcCommand, k: int)
    requires
        command_wf(c),
        c matches FlcCommand::Range { input_start, input_end, .. } && 0 <= k <= input_end
            - input_start,
    ensures
        command_apply(c, (c->input_start + k) as i32) == Some((c->output_start + k) as i32),
{
}


/* Parsing control files */

/// An ASCII hexadecimal digit.
pub open spec fn is_hex_digit(c: char) -> bool {
    digit_val(c) < 16
}

/// An ASCII decimal digit.
pub open spec fn is_dec_digit(c: char) -> bool {
    '0' <= c && c <= '9'
}

/// An ASCII letter.
pub open spec fn is_letter(c: char) -> bool {
    ('a' <= c && c <= 'z') || ('A' <= c && c <= 'Z')
}

/// How the separator search is reading: plain text, or skipping the digits of an escape
/// (hexadecimal, decimal) or the rest of an unknown escape.
pub open spec fn sep_rank(mode: int) -> int {
    if mode == 0 {
        0
    } else {
        1
    }
}

/// The position of the range separator '-' of a character code expression from position
/// `i` in reading mode `mode` (0 plain, 1 hexadecimal digits, 2 decimal digits, 3 other).
/// Escapes are skipped, and a '-' at the very start is a sign, not a separator.
pub open spec fn sep_from(c: Seq<char>, i: int, mode: int) -> Option<int>
    decreases c.len() - i, sep_rank(mode),
{
    if i < 0 || i > c.len() {
        None
    } else if mode == 1 {
        if i < c.len() && is_hex_digit(c[i]) {
            sep_from(c, i + 1, 1)
        } else {
            sep_from(c, i, 0)
        }
    } else if mode == 2 {
        if i < c.len() && is_dec_digit(c[i]) {
            sep_from(c, i + 1, 2)
        } else {
            sep_from(c, i, 0)
        }
    } else if mode == 3 {
        if i < c.len() && !is_ws(c[i]) && c[i] != '-' {
            sep_from(c, i + 1, 3)
        } else {
            sep_from(c, i, 0)
        }
    } else if i == c.len() {
        None
    } else if c[i] == '\\' {
        if i + 1 < c.len() {
            let d = c[i + 1];
            if d == '0' && i + 2 < c.len() && (c[i + 2] == 'x' || c[i + 2] == 'X') {
                sep_from(c, i + 3, 1)
            } else if d == '-' {
                sep_from(c, i + 2, 2)
            } else if is_letter(d) {
                sep_from(c, i + 2, 0)
            } else if '0' <= d && d <= '7' {
                sep_from(c, i + 1, 2)
            } else {
                sep_from(c, i + 1, 3)
            }
        } else {
            None
        }
    } else if c[i] == '-' && i > 0 {
        Some(i)
    } else {
        sep_from(c, i + 1, 0)
    }
}

/// The character index of the range separator of `c`, if it has one.
pub open spec fn range_separator(c: Seq<char>) -> Option<int> {
    sep_from(c, 0, 0)
}

/// The number of bytes of the UTF-8 encoding of `c`.
pub open spec fn char_len(c: char) -> int {
    if (c as u32) < 0x80 {
        1
    } else if (c as u32) < 0x800 {
        2
    } else if (c as u32) < 0x10000 {
        3
    } else {
        4
    }
}

/// The number of characters of `s` whose UTF-8 encoding takes exactly `n` bytes, if
/// `n` falls between two characters.
pub open spec fn byte_boundary(s: Seq<char>, n: int) -> Option<int>
    decreases s.len(),
{
    if n == 0 {
        Some(0)
    } else if s.len() == 0 || n < char_len(s[0]) {
        None
    } else {
        match byte_boundary(s.drop_first(), n - char_len(s[0])) {
            Some(k) => Some(k + 1),
            None => None,
        }
    }
}

/// `s` begins with "0x" or "0X".
pub open spec fn starts_0x(s: Seq<char>) -> bool {
    s.len() >= 2 && s[0] == '0' && (s[1] == 'x' || s[1] == 'X')
}

/// `from_str_radix` for `i32`.
pub open spec fn i32_value(s: Seq<char>, radix: int) -> Option<i32> {
    match parse_int(s, radix, i32::MIN as int, i32::MAX as int) {
        Some(v) => Some(v as i32),
        None => None,
    }
}

/// The negation of a code; that of `i32::MIN` is out of range.
pub open spec fn negated(v: i32) -> Result<i32, Error> {
    if v == i32::MIN {
        Err(Error::ControlFormat("character code out of range"))
    } else {
        Ok((-v) as i32)
    }
}

/// The value of the digits after a '-' sign, negated: hexadecimal after "0x", octal after
/// a leading 0, decimal otherwise.
pub open spec fn spec_negated_code(digits: Seq<char>) -> Result<i32, Error> {
    if starts_0x(digits) {
        match i32_value(digits.skip(2), 16) {
            Some(v) => negated(v),
            None => Err(Error::ControlFormat("invalid hex number")),
        }
    } else if digits.len() > 1 && digits[0] == '0' {
        match i32_value(digits, 8) {
            Some(v) => negated(v),
            None => Err(Error::ControlFormat("invalid octal number")),
        }
    } else {
        match i32_value(digits, 10) {
            Some(v) => negated(v),
            None => Err(Error::ControlFormat("invalid number")),
        }
    }
}

/// A numeric character code: hexadecimal after "0x", negative after '-', octal after a
/// leading 0, decimal otherwise.
pub open spec fn spec_numeric_code(s0: Seq<char>) -> Result<i32, Error> {
    let s = trim_start(trim_end(s0));
    if starts_0x(s) {
        match i32_value(s.skip(2), 16) {
            Some(v) => Ok(v),
            None => Err(Error::ControlFormat("invalid hex number")),
        }
    } else if s.len() > 0 && s[0] == '-' {
        spec_negated_code(s.drop_first())
    } else if s.len() > 1 && s[0] == '0' {
        match i32_value(s, 8) {
            Some(v) => Ok(v),
            None => Err(Error::ControlFormat("invalid octal number")),
        }
    } else {
        match i32_value(s, 10) {
            Some(v) => Ok(v),
            None => Err(Error::ControlFormat("invalid number")),
        }
    }
}

/// The number of "0x" and "0X" in `s`.
pub open spec fn count_0x(s: Seq<char>) -> int
    decreases s.len(),
{
    if s.len() < 2 {
        0
    } else {
        (if starts_0x(s) {
            1int
        } else {
            0int
        }) + count_0x(s.drop_first())
    }
}

/// An ASCII character.
pub open spec fn is_ascii_char(c: char) -> bool {
    (c as u32) < 0x80
}

/// Concatenated "\0xNN" escapes: each adds the byte NN below those before it.
pub open spec fn spec_concat_hex_from(rem: Seq<char>, acc: i32) -> Result<i32, Error>
    decreases rem.len(),
{
    if rem.len() == 0 {
        Ok(acc)
    } else if starts_0x(rem) {
        let ap = rem.skip(2);
        if ap.len() >= 2 || (ap.len() == 1 && !is_ascii_char(ap[0])) {
            if ap.len() >= 2 && is_ascii_char(ap[0]) && is_ascii_char(ap[1]) {
                match i32_value(ap.take(2), 16) {
                    Some(v) => spec_concat_hex_from(ap.skip(2), (acc << 8u32) | v),
                    None => Err(Error::ControlFormat("invalid hex escape")),
                }
            } else {
                Err(Error::ControlFormat("invalid hex escape"))
            }
        } else {
            match i32_value(ap, 16) {
                Some(v) => Ok((acc << 8u32) | v),
                None => Err(Error::ControlFormat("invalid hex escape")),
            }
        }
    } else if rem[0] == '\\' {
        spec_concat_hex_from(rem.drop_first(), acc)
    } else {
        Ok(acc)
    }
}

/// A hexadecimal escape "0x..." (after the backslash): one escape is its whole value;
/// several concatenated ones ("0x01\0x02") give two hex digits each.
pub open spec fn spec_concatenated_hex(s: Seq<char>) -> Result<i32, Error> {
    if count_0x(s) == 1 {
        match i32_value(s.skip(2), 16) {
            Some(v) => Ok(v),
            None => Err(Error::ControlFormat("invalid hex escape")),
        }
    } else {
        spec_concat_hex_from(s, 0)
    }
}

/// The code of an escape sequence (what follows the backslash): the named control
/// characters, a negative number after '-', hexadecimal or octal after 0, decimal otherwise;
/// nothing at all is a space.
pub open spec fn spec_escape_sequence(s: Seq<char>) -> Result<i32, Error> {
    if s.len() == 0 {
        Ok(32)
    } else {
        let f = s[0];
        if f == ' ' {
            Ok(32)
        } else if f == 'a' {
            Ok(7)
        } else if f == 'b' {
            Ok(8)
        } else if f == 'e' {
            Ok(27)
        } else if f == 'f' {
            Ok(12)
        } else if f == 'n' {
            Ok(10)
        } else if f == 'r' {
            Ok(13)
        } else if f == 't' {
            Ok(9)
        } else if f == 'v' {
            Ok(11)
        } else if f == '\\' {
            Ok(92)
        } else if f == '-' {
            if s.len() > 1 {
                spec_negated_code(s.drop_first())
            } else {
                Ok(-1i32)
            }
        } else if f == '0' {
            if s.len() > 1 && (s[1] == 'x' || s[1] == 'X') {
                spec_concatenated_hex(s)
            } else if s.len() > 1 {
                match i32_value(s, 8) {
                    Some(v) => Ok(v),
                    None => Err(Error::ControlFormat("invalid octal escape")),
                }
            } else {
                Ok(0)
            }
        } else {
            match i32_value(s, 10) {
                Some(v) => Ok(v),
                None => Err(Error::ControlFormat("invalid number")),
            }
        }
    }
}

/// A character code in a command: an escape after a backslash, a single character as
/// itself, otherwise a number.
pub open spec fn spec_char_code(s: Seq<char>) -> Result<i32, Error> {
    if s.len() > 0 && s[0] == '\\' {
        spec_escape_sequence(s.drop_first())
    } else if s.len() == 1 {
        Ok(s[0] as i32)
    } else {
        spec_numeric_code(s)
    }
}

/// A range command from the four parts of "a-b c-d": sizes that overflow are an error,
/// sizes that differ a mismatch.
pub open spec fn spec_range(a: Seq<char>, b: Seq<char>, c: Seq<char>, d: Seq<char>) -> Result<
    FlcCommand,
    Error,
> {
    match spec_char_code(a) {
        Err(e) => Err(e),
        Ok(is) => match spec_char_code(b) {
            Err(e) => Err(e),
            Ok(ie) => match spec_char_code(c) {
                Err(e) => Err(e),
                Ok(os) => match spec_char_code(d) {
                    Err(e) => Err(e),
                    Ok(oe) => if !(i32::MIN <= ie - is <= i32::MAX) || !(i32::MIN <= oe - os
                        <= i32::MAX) {
                        Err(Error::ControlFormat("range size out of range"))
                    } else if ie - is != oe - os {
                        Err(Error::ControlRangeMismatch)
                    } else {
                        Ok(
                            FlcCommand::Range {
                                input_start: is,
                                input_end: ie,
                                output_start: os,
                                output_end: oe,
                            },
                        )
                    },
                },
            },
        },
    }
}

/// The command that maps `inp` to `out`: a range if `inp` has a range separator (then `out`
/// must have one too), a single mapping otherwise.
pub open spec fn spec_mapping(inp: Seq<char>, out: Seq<char>) -> Result<FlcCommand, Error> {
    match range_separator(inp) {
        Some(pos) => match (byte_boundary(inp, pos), byte_boundary(inp, pos + 1)) {
            (Some(a), Some(b)) => match range_separator(out) {
                None => Err(Error::ControlFormat("range input requires range output")),
                Some(op) => match (byte_boundary(out, op), byte_boundary(out, op + 1)) {
                    (Some(c), Some(d)) => spec_range(inp.take(a), inp.skip(b), out.take(c), out.skip(d)),
                    _ => Err(Error::ControlFormat("range split inside a character")),
                },
            },
            _ => Err(Error::ControlFormat("range split inside a character")),
        },
        None => match spec_char_code(inp) {
            Err(e) => Err(e),
            Ok(i) => match spec_char_code(out) {
                Err(e) => Err(e),
                Ok(o) => Ok(FlcCommand::Single { input: i, output: o }),
            },
        },
    }
}

/// A "t" command line: none unless its first word is "t"; then it needs two more words.
pub open spec fn spec_t_command(line: Seq<char>) -> Result<Option<FlcCommand>, Error> {
    let tokens = split_ws(line);
    if tokens.len() == 0 || tokens[0] != seq!['t'] {
        Ok(None)
    } else if tokens.len() < 3 {
        Err(Error::ControlFormat("invalid t command"))
    } else {
        match spec_mapping(tokens[1], tokens[2]) {
            Ok(c) => Ok(Some(c)),
            Err(e) => Err(e),
        }
    }
}

/// A "number number" command line: none with fewer than two words.
pub open spec fn spec_number_command(line: Seq<char>) -> Result<Option<FlcCommand>, Error> {
    let tokens = split_ws(line);
    if tokens.len() < 2 {
        Ok(None)
    } else {
        match spec_mapping(tokens[0], tokens[1]) {
            Ok(c) => Ok(Some(c)),
            Err(e) => Err(e),
        }
    }
}

/// The size of the character set in a "g" command: 94, 96, 94x94, or a single final
/// character from 'A' to '~' (a 94-character set).
pub open spec fn spec_g_size(s: Seq<char>) -> Result<Iso2022CharSetSize, Error> {
    if s == seq!['9', '4'] {
        Ok(Iso2022CharSetSize::Bits94)
    } else if s == seq!['9', '6'] {
        Ok(Iso2022CharSetSize::Bits96)
    } else if s == seq!['9', '4', 'x', '9', '4'] {
        Ok(Iso2022CharSetSize::Bits94x94)
    } else if s.len() == 1 && 'A' <= s[0] && s[0] <= '~' {
        Ok(Iso2022CharSetSize::Bits94)
    } else {
        Err(Error::ControlFormat("invalid g charset size"))
    }
}

/// One of the G-register names "0" to "3", as its number.
pub open spec fn g_register(s: Seq<char>) -> Option<int> {
    if s.len() == 1 && '0' <= s[0] && s[0] <= '3' {
        Some(s[0] as int - '0' as int)
    } else {
        None
    }
}

/// Set the left or right half (`half` is "L" or "R") to the register named by `reg`.
pub open spec fn spec_g_half(iso: Iso2022Settings, half: Seq<char>, reg: Seq<char>) -> Result<
    Iso2022Settings,
    Error,
> {
    match i32_value(reg, 10) {
        None => Err(Error::ControlFormat("invalid g register")),
        Some(r) => if !(0 <= r <= 3) {
            Err(Error::ControlFormat("invalid g register"))
        } else if half == seq!['L'] {
            Ok(Iso2022Settings { left_half: r, ..iso })
        } else {
            Ok(Iso2022Settings { right_half: r, ..iso })
        },
    }
}

/// Assign register `g` the set of the given size and designating word (if any).
pub open spec fn spec_g_set(iso: Iso2022Settings, g: int, size: Seq<char>, rest: Seq<Seq<char>>) -> Result<
    Iso2022Settings,
    Error,
> {
    match spec_g_size(size) {
        Err(e) => Err(e),
        Ok(sz) => {
            let d: i32 = if rest.len() == 0 {
                0
            } else if rest[0].len() > 0 {
                rest[0][0] as i32
            } else {
                '0' as i32
            };
            Ok(
                Iso2022Settings {
                    g_sets: spec_array_update(
                        iso.g_sets,
                        g,
                        Some(Iso2022CharSet { size: sz, designating_byte: d }),
                    ),
                    ..iso
                },
            )
        },
    }
}

/// A "g" command line: "gL n", "gR n", "g0 size [byte]" .. "g3 ...", or the same with a
/// space after the "g".
pub open spec fn spec_g_command(line: Seq<char>, iso: Iso2022Settings) -> Result<Iso2022Settings, Error> {
    let parts = split_ws(line);
    if parts.len() < 2 {
        Err(Error::ControlFormat("invalid g command"))
    } else {
        let kw = parts[0];
        let rest = if kw.len() > 0 && kw[0] == 'g' {
            kw.drop_first()
        } else {
            Seq::empty()
        };
        if rest == seq!['L'] || rest == seq!['R'] {
            spec_g_half(iso, rest, parts[1])
        } else if g_register(rest) is Some {
            spec_g_set(iso, g_register(rest).unwrap(), parts[1], parts.skip(2))
        } else if kw == seq!['g'] && parts.len() >= 3 {
            let fa = parts[1];
            if fa == seq!['L'] || fa == seq!['R'] {
                spec_g_half(iso, fa, parts[2])
            } else if g_register(fa) is Some {
                spec_g_set(iso, g_register(fa).unwrap(), parts[2], parts.skip(3))
            } else {
                Err(Error::ControlFormat("invalid g command target"))
            }
        } else {
            Err(Error::ControlFormat("invalid g command target"))
        }
    }
}


/// `from_str_radix` for `i32`.
fn parse_i32(s: &[char], radix: u32) -> (r: Option<i32>)
    requires
        2 <= radix <= 36,
    ensures
        r == i32_value(s@, radix as int),
{
    match parse_radix(s, radix, i32::MIN as i128, i32::MAX as i128) {
        Some(v) => Some(v as i32),
        None => None,
    }
}

fn starts_with_0x(s: &[char]) -> (r: bool)
    ensures
        r == starts_0x(s@),
{
    s.len() >= 2 && s[0] == '0' && (s[1] == 'x' || s[1] == 'X')
}

fn negate(v: i32) -> (r: Result<i32, Error>)
    ensures
        r == negated(v),
{
    if v == i32::MIN {
        Err(Error::ControlFormat("character code out of range"))
    } else {
        Ok(-v)
    }
}

/// The digits after a '-' sign, read as a number and negated.
fn parse_negated(digits: &[char]) -> (r: Result<i32, Error>)
    ensures
        r == spec_negated_code(digits@),
{
    if starts_with_0x(digits) {
        let h = slice_subrange(digits, 2, digits.len());
        assert(h@ =~= digits@.skip(2));
        match parse_i32(h, 16) {
            Some(v) => negate(v),
            None => Err(Error::ControlFormat("invalid hex number")),
        }
    } else if digits.len() > 1 && digits[0] == '0' {
        match parse_i32(digits, 8) {
            Some(v) => negate(v),
            None => Err(Error::ControlFormat("invalid octal number")),
        }
    } else {
        match parse_i32(digits, 10) {
            Some(v) => negate(v),
            None => Err(Error::ControlFormat("invalid number")),
        }
    }
}

/// Parse a numeric character code (for "number number" format or escape sequences).
fn parse_numeric_code(s0: &[char]) -> (r: Result<i32, Error>)
    ensures
        r == spec_numeric_code(s0@),
{
    let e = trim_end_len(s0);
    let t = slice_subrange(s0, 0, e);
    assert(t@ =~= s0@.take(e as int));
    let b = trim_start_pos(t);
    let s = slice_subrange(t, b, t.len());
    assert(s@ =~= t@.skip(b as int));
    if starts_with_0x(s) {
        let h = slice_subrange(s, 2, s.len());
        assert(h@ =~= s@.skip(2));
        match parse_i32(h, 16) {
            Some(v) => Ok(v),
            None => Err(Error::ControlFormat("invalid hex number")),
        }
    } else if s.len() > 0 && s[0] == '-' {
        let d = slice_subrange(s, 1, s.len());
        assert(d@ =~= s@.drop_first());
        parse_negated(d)
    } else if s.len() > 1 && s[0] == '0' {
        match parse_i32(s, 8) {
            Some(v) => Ok(v),
            None => Err(Error::ControlFormat("invalid octal number")),
        }
    } else {
        match parse_i32(s, 10) {
            Some(v) => Ok(v),
            None => Err(Error::ControlFormat("invalid number")),
        }
    }
}

/// The number of "0x" and "0X" in `s`.
fn count_hex_prefixes(s: &[char]) -> (n: usize)
    ensures
        n == count_0x(s@),
{
    let mut n: usize = 0;
    let mut i: usize = 0;
    assert(s@.skip(0) =~= s@);
    while i < s.len() && i + 1 < s.len()
        invariant
            i <= s@.len(),
            n <= i,
            count_0x(s@) == n + count_0x(s@.skip(i as int)),
        decreases s@.len() - i,
    {
        let ghost rest = s@.skip(i as int);
        assert(rest.drop_first() =~= s@.skip(i + 1));
        assert(rest[0] == s@[i as int] && rest[1] == s@[i + 1]);
        if s[i] == '0' && (s[i + 1] == 'x' || s[i + 1] == 'X') {
            n = n + 1;
        }
        i = i + 1;
    }
    n
}

fn is_ascii(c: char) -> (r: bool)
    ensures
        r == is_ascii_char(c),
{
    (c as u32) < 0x80
}

/// Parse concatenated hex escapes (e.g., "0x01\0x01" -> 0x0101).
/// For single escape (e.g., "0x03b1"), parses as one value (0x03B1 = 945).
fn parse_concatenated_hex(s: &[char]) -> (r: Result<i32, Error>)
    requires
        s@.len() >= 2,
    ensures
        r == spec_concatenated_hex(s@),
{
    if count_hex_prefixes(s) == 1 {
        let h = slice_subrange(s, 2, s.len());
        assert(h@ =~= s@.skip(2));
        return match parse_i32(h, 16) {
            Some(v) => Ok(v),
            None => Err(Error::ControlFormat("invalid hex escape")),
        };
    }
    let mut acc: i32 = 0;
    let mut i: usize = 0;
    assert(s@.skip(0) =~= s@);
    loop
        invariant
            i <= s@.len(),
            spec_concatenated_hex(s@) == spec_concat_hex_from(s@.skip(i as int), acc),
        decreases s@.len() - i,
    {
        let ghost rem = s@.skip(i as int);
        if i == s.len() {
            return Ok(acc);
        }
        if i + 1 < s.len() && s[i] == '0' && (s[i + 1] == 'x' || s[i + 1] == 'X') {
            assert(starts_0x(rem));
            let a = i + 2;
            let ghost ap = rem.skip(2);
            assert(ap =~= s@.skip(a as int));
            let n = s.len() - a;
            if n >= 2 || (n == 1 && !is_ascii(s[a])) {
                if n >= 2 && is_ascii(s[a]) && is_ascii(s[a + 1]) {
                    let h = slice_subrange(s, a, a + 2);
                    assert(h@ =~= ap.take(2));
                    match parse_i32(h, 16) {
                        Some(v) => {
                            assert(ap.skip(2) =~= s@.skip(a + 2));
                            acc = (acc << 8u32) | v;
                            i = a + 2;
                        },
                        None => {
                            return Err(Error::ControlFormat("invalid hex escape"));
                        },
                    }
                } else {
                    return Err(Error::ControlFormat("invalid hex escape"));
                }
            } else {
                let h = slice_subrange(s, a, s.len());
                assert(h@ =~= ap);
                return match parse_i32(h, 16) {
                    Some(v) => Ok((acc << 8u32) | v),
                    None => Err(Error::ControlFormat("invalid hex escape")),
                };
            }
        } else if s[i] == '\\' {
            assert(!starts_0x(rem));
            assert(rem.drop_first() =~= s@.skip(i + 1));
            i = i + 1;
        } else {
            assert(!starts_0x(rem));
            return Ok(acc);
        }
    }
}

/// Parse an escape sequence after the backslash.
/// \65 is decimal 65, \0x100 is hex 256, \0101 is octal 65.
fn parse_escape_sequence(s: &[char]) -> (r: Result<i32, Error>)
    ensures
        r == spec_escape_sequence(s@),
{
    if s.len() == 0 {
        return Ok(32);
    }
    let f = s[0];
    if f == ' ' {
        Ok(32)
    } else if f == 'a' {
        Ok(7)
    } else if f == 'b' {
        Ok(8)
    } else if f == 'e' {
        Ok(27)
    } else if f == 'f' {
        Ok(12)
    } else if f == 'n' {
        Ok(10)
    } else if f == 'r' {
        Ok(13)
    } else if f == 't' {
        Ok(9)
    } else if f == 'v' {
        Ok(11)
    } else if f == '\\' {
        Ok(92)
    } else if f == '-' {
        if s.len() > 1 {
            let d = slice_subrange(s, 1, s.len());
            assert(d@ =~= s@.drop_first());
            parse_negated(d)
        } else {
            Ok(-1)
        }
    } else if f == '0' {
        if s.len() > 1 && (s[1] == 'x' || s[1] == 'X') {
            parse_concatenated_hex(s)
        } else if s.len() > 1 {
            match parse_i32(s, 8) {
                Some(v) => Ok(v),
                None => Err(Error::ControlFormat("invalid octal escape")),
            }
        } else {
            Ok(0)
        }
    } else {
        match parse_i32(s, 10) {
            Some(v) => Ok(v),
            None => Err(Error::ControlFormat("invalid number")),
        }
    }
}

/// Parse a character code from a command (with escape sequences).
fn parse_char_code(s: &[char]) -> (r: Result<i32, Error>)
    ensures
        r == spec_char_code(s@),
{
    if s.len() > 0 && s[0] == '\\' {
        let rest = slice_subrange(s, 1, s.len());
        assert(rest@ =~= s@.drop_first());
        parse_escape_sequence(rest)
    } else if s.len() == 1 {
        Ok(s[0] as i32)
    } else {
        parse_numeric_code(s)
    }
}


fn is_hex(c: char) -> (r: bool)
    ensures
        r == is_hex_digit(c),
{
    ('0' <= c && c <= '9') || ('a' <= c && c <= 'f') || ('A' <= c && c <= 'F')
}

/// Find the position of the range separator '-' in a character code expression.
/// Escapes are skipped, and a leading '-' is a sign.
fn find_range_separator(c: &[char]) -> (r: Option<usize>)
    ensures
        match r {
            Some(p) => range_separator(c@) == Some(p as int) && p < c@.len(),
            None => range_separator(c@) is None,
        },
{
    let mut i: usize = 0;
    while i < c.len()
        invariant
            i <= c@.len(),
            range_separator(c@) == sep_from(c@, i as int, 0),
        decreases c@.len() - i,
    {
        let ghost i0 = i;
        if c[i] == '\\' {
            if i + 1 < c.len() {
                let d = c[i + 1];
                if d == '0' && i + 2 < c.len() && (c[i + 2] == 'x' || c[i + 2] == 'X') {
                    i = i + 3;
                    while i < c.len() && is_hex(c[i])
                        invariant
                            i0 < i <= c@.len(),
                            range_separator(c@) == sep_from(c@, i as int, 1),
                        decreases c@.len() - i,
                    {
                        i = i + 1;
                    }
                } else if d == '-' {
                    i = i + 2;
                    while i < c.len() && '0' <= c[i] && c[i] <= '9'
                        invariant
                            i0 < i <= c@.len(),
                            range_separator(c@) == sep_from(c@, i as int, 2),
                        decreases c@.len() - i,
                    {
                        i = i + 1;
                    }
                } else if ('a' <= d && d <= 'z') || ('A' <= d && d <= 'Z') {
                    i = i + 2;
                } else if '0' <= d && d <= '7' {
                    i = i + 1;
                    while i < c.len() && '0' <= c[i] && c[i] <= '9'
                        invariant
                            i0 < i <= c@.len(),
                            range_separator(c@) == sep_from(c@, i as int, 2),
                        decreases c@.len() - i,
                    {
                        i = i + 1;
                    }
                } else {
                    i = i + 1;
                    while i < c.len() && !is_whitespace(c[i]) && c[i] != '-'
                        invariant
                            i0 < i <= c@.len(),
                            range_separator(c@) == sep_from(c@, i as int, 3),
                        decreases c@.len() - i,
                    {
                        i = i + 1;
                    }
                }
            } else {
                return None;
            }
        } else if c[i] == '-' && i > 0 {
            return Some(i);
        } else {
            i = i + 1;
        }
    }
    None
}

fn utf8_len(c: char) -> (n: usize)
    ensures
        n == char_len(c),
{
    if (c as u32) < 0x80 {
        1
    } else if (c as u32) < 0x800 {
        2
    } else if (c as u32) < 0x10000 {
        3
    } else {
        4
    }
}

/// The number of characters of `s` that take exactly `n` bytes in UTF-8, if `n` falls
/// between two characters.
fn char_boundary(s: &[char], n: usize) -> (r: Option<usize>)
    ensures
        match r {
            Some(k) => byte_boundary(s@, n as int) == Some(k as int) && k <= s@.len(),
            None => byte_boundary(s@, n as int) is None,
        },
{
    let mut k: usize = 0;
    let mut acc: usize = 0;
    assert(s@.skip(0) =~= s@);
    while k < s.len() && acc < n
        invariant
            k <= s@.len(),
            acc <= n,
            byte_boundary(s@, n as int) == (match byte_boundary(s@.skip(k as int), n - acc) {
                Some(j) => Some(j + k),
                None => None,
            }),
        decreases s@.len() - k,
    {
        let ghost rest = s@.skip(k as int);
        assert(rest[0] == s@[k as int]);
        assert(rest.drop_first() =~= s@.skip(k + 1));
        let cl = utf8_len(s[k]);
        if cl > n - acc {
            return None;
        }
        acc = acc + cl;
        k = k + 1;
    }
    if acc == n {
        Some(k)
    } else {
        None
    }
}

/// A range command from the four parts of "a-b c-d".
fn parse_range(a: &[char], b: &[char], c: &[char], d: &[char]) -> (r: Result<FlcCommand, Error>)
    ensures
        r == spec_range(a@, b@, c@, d@),
{
    let is = match parse_char_code(a) {
        Ok(v) => v,
        Err(e) => return Err(e),
    };
    let ie = match parse_char_code(b) {
        Ok(v) => v,
        Err(e) => return Err(e),
    };
    let os = match parse_char_code(c) {
        Ok(v) => v,
        Err(e) => return Err(e),
    };
    let oe = match parse_char_code(d) {
        Ok(v) => v,
        Err(e) => return Err(e),
    };
    let in_size: i64 = ie as i64 - is as i64;
    let out_size: i64 = oe as i64 - os as i64;
    if in_size < i32::MIN as i64 || in_size > i32::MAX as i64 || out_size < i32::MIN as i64
        || out_size > i32::MAX as i64 {
        return Err(Error::ControlFormat("range size out of range"));
    }
    if in_size != out_size {
        return Err(Error::ControlRangeMismatch);
    }
    Ok(FlcCommand::Range { input_start: is, input_end: ie, output_start: os, output_end: oe })
}

/// The range command of the words `inp` and `out`, `inp` having its separator at `pos`.
fn parse_range_words(inp: &[char], pos: usize, out: &[char]) -> (r: Result<FlcCommand, Error>)
    requires
        range_separator(inp@) == Some(pos as int),
        pos < inp@.len(),
    ensures
        r == spec_mapping(inp@, out@),
{
    assert(inp@.len() == inp.len());
    let a = match char_boundary(inp, pos) {
        Some(a) => a,
        None => return Err(Error::ControlFormat("range split inside a character")),
    };
    let b = match char_boundary(inp, pos + 1) {
        Some(b) => b,
        None => return Err(Error::ControlFormat("range split inside a character")),
    };
    let op = match find_range_separator(out) {
        Some(op) => op,
        None => return Err(Error::ControlFormat("range input requires range output")),
    };
    assert(out@.len() == out.len());
    let c = match char_boundary(out, op) {
        Some(c) => c,
        None => return Err(Error::ControlFormat("range split inside a character")),
    };
    let d = match char_boundary(out, op + 1) {
        Some(d) => d,
        None => return Err(Error::ControlFormat("range split inside a character")),
    };
    let in_start = slice_subrange(inp, 0, a);
    let in_end = slice_subrange(inp, b, inp.len());
    let out_start = slice_subrange(out, 0, c);
    let out_end = slice_subrange(out, d, out.len());
    assert(in_start@ =~= inp@.take(a as int));
    assert(in_end@ =~= inp@.skip(b as int));
    assert(out_start@ =~= out@.take(c as int));
    assert(out_end@ =~= out@.skip(d as int));
    parse_range(in_start, in_end, out_start, out_end)
}

/// The command that maps the word `inp` to the word `out`.
fn parse_mapping(inp: &[char], out: &[char]) -> (r: Result<FlcCommand, Error>)
    ensures
        r == spec_mapping(inp@, out@),
{
    match find_range_separator(inp) {
        Some(pos) => parse_range_words(inp, pos, out),
        None => {
            let input = match parse_char_code(inp) {
                Ok(v) => v,
                Err(e) => return Err(e),
            };
            let output = match parse_char_code(out) {
                Ok(v) => v,
                Err(e) => return Err(e),
            };
            Ok(FlcCommand::Single { input, output })
        },
    }
}

/// Parse a "t" command line.
fn parse_t_command(line: &[char]) -> (r: Result<Option<FlcCommand>, Error>)
    ensures
        r == spec_t_command(line@),
{
    let tokens = tokenize_flc_line(line);
    proof {
        assert(views(tokens@).len() == tokens@.len());
        if tokens@.len() > 0 {
            assert(views(tokens@)[0] == tokens@[0]@);
        }
        if tokens@.len() > 2 {
            assert(views(tokens@)[1] == tokens@[1]@);
            assert(views(tokens@)[2] == tokens@[2]@);
        }
    }
    if tokens.len() == 0 || !(tokens[0].len() == 1 && tokens[0][0] == 't') {
        proof {
            if tokens@.len() > 0 && tokens@[0]@ == seq!['t'] {
                assert(tokens@[0]@[0] == 't');
            }
        }
        return Ok(None);
    }
    assert(tokens@[0]@ =~= seq!['t']);
    if tokens.len() < 3 {
        return Err(Error::ControlFormat("invalid t command"));
    }
    match parse_mapping(tokens[1].as_slice(), tokens[2].as_slice()) {
        Ok(c) => Ok(Some(c)),
        Err(e) => Err(e),
    }
}

/// Parse a "number number" command (no "t" prefix).
fn parse_number_command(line: &[char]) -> (r: Result<Option<FlcCommand>, Error>)
    ensures
        r == spec_number_command(line@),
{
    let tokens = tokenize_flc_line(line);
    proof {
        assert(views(tokens@).len() == tokens@.len());
        if tokens@.len() > 1 {
            assert(views(tokens@)[0] == tokens@[0]@);
            assert(views(tokens@)[1] == tokens@[1]@);
        }
    }
    if tokens.len() < 2 {
        return Ok(None);
    }
    match parse_mapping(tokens[0].as_slice(), tokens[1].as_slice()) {
        Ok(c) => Ok(Some(c)),
        Err(e) => Err(e),
    }
}


/// Parse the size part of a g command (94, 96, 94x94, or a charset designator letter).
fn parse_g_size(s: &[char]) -> (r: Result<Iso2022CharSetSize, Error>)
    ensures
        r == spec_g_size(s@),
{
    if s.len() == 2 && s[0] == '9' && s[1] == '4' {
        assert(s@ =~= seq!['9', '4']);
        Ok(Iso2022CharSetSize::Bits94)
    } else if s.len() == 2 && s[0] == '9' && s[1] == '6' {
        assert(s@ =~= seq!['9', '6']);
        Ok(Iso2022CharSetSize::Bits96)
    } else if s.len() == 5 && s[0] == '9' && s[1] == '4' && s[2] == 'x' && s[3] == '9' && s[4]
        == '4' {
        assert(s@ =~= seq!['9', '4', 'x', '9', '4']);
        Ok(Iso2022CharSetSize::Bits94x94)
    } else if s.len() == 1 && 'A' <= s[0] && s[0] <= '~' {
        assert(s@ != seq!['9', '4'] && s@ != seq!['9', '6'] && s@ != seq!['9', '4', 'x', '9', '4'])
            by {
            assert(seq!['9', '4'].len() == 2);
            assert(seq!['9', '6'].len() == 2);
            assert(seq!['9', '4', 'x', '9', '4'].len() == 5);
        }
        Ok(Iso2022CharSetSize::Bits94)
    } else {
        proof {
            if s@ == seq!['9', '4'] || s@ == seq!['9', '6'] {
                assert(s@[0] == '9');
            }
            if s@ == seq!['9', '4', 'x', '9', '4'] {
                assert(s@[4] == '4');
            }
        }
        Err(Error::ControlFormat("invalid g charset size"))
    }
}

/// The word is the single character `c`.
fn word_is(w: &[char], c: char) -> (r: bool)
    ensures
        r == (w@ == seq![c]),
{
    if w.len() == 1 && w[0] == c {
        assert(w@ =~= seq![c]);
        true
    } else {
        proof {
            if w@ == seq![c] {
                assert(w@[0] == c);
            }
        }
        false
    }
}

/// The register named by the word, "0" to "3".
fn g_register_of(w: &[char]) -> (r: Option<usize>)
    ensures
        match r {
            Some(g) => g_register(w@) == Some(g as int) && g < 4,
            None => g_register(w@) is None,
        },
{
    if w.len() == 1 && '0' <= w[0] && w[0] <= '3' {
        Some(((w[0] as u32) - ('0' as u32)) as usize)
    } else {
        None
    }
}

/// Set the left half (`half` "L") or the right half to the register named by `reg`.
fn set_g_half(iso: Iso2022Settings, half: &[char], reg: &[char]) -> (r: Result<
    Iso2022Settings,
    Error,
>)
    ensures
        r == spec_g_half(iso, half@, reg@),
{
    match parse_i32(reg, 10) {
        None => Err(Error::ControlFormat("invalid g register")),
        Some(g) => {
            if g < 0 || g > 3 {
                Err(Error::ControlFormat("invalid g register"))
            } else if word_is(half, 'L') {
                Ok(Iso2022Settings { left_half: g, ..iso })
            } else {
                Ok(Iso2022Settings { right_half: g, ..iso })
            }
        },
    }
}

/// Assign register `g` the set of the given size, designated by the first character of the
/// word after it (if any).
fn set_g_set(iso: Iso2022Settings, g: usize, parts: &Vec<Vec<char>>, k: usize) -> (r: Result<
    Iso2022Settings,
    Error,
>)
    requires
        g < 4,
        k < parts@.len(),
    ensures
        r == spec_g_set(iso, g as int, parts@[k as int]@, views(parts@).skip(k + 1)),
{
    let size = match parse_g_size(parts[k].as_slice()) {
        Ok(sz) => sz,
        Err(e) => return Err(e),
    };
    let ghost rest = views(parts@).skip(k + 1);
    let d: i32 = if k == parts.len() - 1 {
        0
    } else if parts[k + 1].len() > 0 {
        assert(rest[0] == parts@[k + 1]@);
        parts[k + 1][0] as i32
    } else {
        assert(rest[0] == parts@[k + 1]@);
        '0' as i32
    };
    let mut n = iso;
    n.g_sets[g] = Some(Iso2022CharSet { size, designating_byte: d });
    Ok(n)
}

/// Parse a "g" command for ISO 2022 settings: the settings it makes of `iso`.
fn parse_g_command(line: &[char], iso: Iso2022Settings) -> (r: Result<Iso2022Settings, Error>)
    ensures
        r == spec_g_command(line@, iso),
{
    let parts = split_whitespace(line);
    let ghost ps = views(parts@);
    assert(ps.len() == parts@.len());
    if parts.len() < 2 {
        return Err(Error::ControlFormat("invalid g command"));
    }
    assert(ps[0] == parts@[0]@ && ps[1] == parts@[1]@);
    let kw = parts[0].as_slice();
    let rest: &[char] = if kw.len() > 0 && kw[0] == 'g' {
        slice_subrange(kw, 1, kw.len())
    } else {
        slice_subrange(kw, 0, 0)
    };
    assert(rest@ =~= (if ps[0].len() > 0 && ps[0][0] == 'g' {
        ps[0].drop_first()
    } else {
        Seq::empty()
    }));
    if word_is(rest, 'L') || word_is(rest, 'R') {
        set_g_half(iso, rest, parts[1].as_slice())
    } else if let Some(g) = g_register_of(rest) {
        set_g_set(iso, g, &parts, 1)
    } else if word_is(kw, 'g') && parts.len() >= 3 {
        assert(ps[2] == parts@[2]@);
        let fa = parts[1].as_slice();
        if word_is(fa, 'L') || word_is(fa, 'R') {
            set_g_half(iso, fa, parts[2].as_slice())
        } else if let Some(g) = g_register_of(fa) {
            set_g_set(iso, g, &parts, 2)
        } else {
            Err(Error::ControlFormat("invalid g command target"))
        }
    } else {
        Err(Error::ControlFormat("invalid g command target"))
    }
}


/* Loading a control file */

/// What the lines of a control file read so far have made: the commands of each stage, the
/// input encoding and the ISO 2022 settings.
pub struct FlcModel {
    pub stages: Seq<Seq<FlcCommand>>,
    pub encoding: InputEncoding,
    pub iso: Iso2022Settings,
}

/// Before the first line: one empty stage, the default encoding and ISO 2022 settings.
pub open spec fn initial_model() -> FlcModel {
    FlcModel { stages: seq![Seq::empty()], encoding: InputEncoding::Default, iso: default_iso2022() }
}

/// `m` with `c` added at the end of its last stage.
pub open spec fn push_command(m: FlcModel, c: FlcCommand) -> FlcModel {
    FlcModel { stages: m.stages.update(m.stages.len() - 1, m.stages.last().push(c)), ..m }
}

/// `m` with the command, if any, that a command line gave.
pub open spec fn with_command(m: FlcModel, r: Result<Option<FlcCommand>, Error>) -> Result<
    FlcModel,
    Error,
> {
    match r {
        Ok(Some(c)) => Ok(push_command(m, c)),
        Ok(None) => Ok(m),
        Err(e) => Err(e),
    }
}

/// The signature line "flc2a".
pub open spec fn flc_signature() -> Seq<char> {
    seq!['f', 'l', 'c', '2', 'a']
}

/// What one line of a control file makes of `m` (`first` for the file's first line): the
/// signature on the first line, blank lines and comments change nothing; otherwise the first
/// character decides: "t" a mapping, "f" a new stage, "h", "j", "b", "u" an encoding, "g" an
/// ISO 2022 setting, a digit, '-' or '\\' a "number number" mapping, anything else nothing.
pub open spec fn load_line(raw: Seq<char>, first: bool, m: FlcModel) -> Result<FlcModel, Error> {
    let line = trim_end(raw);
    if first && line == flc_signature() {
        Ok(m)
    } else if line.len() == 0 || line[0] == '#' {
        Ok(m)
    } else {
        let t = trim_start(line);
        if t.len() == 0 {
            Ok(m)
        } else {
            load_command(t, m)
        }
    }
}

/// What a command line (without leading whitespace) makes of `m`, by its first character.
#[verifier::opaque]
pub open spec fn load_command(t: Seq<char>, m: FlcModel) -> Result<FlcModel, Error> {
    let c = t[0];
    if c == 't' {
        with_command(m, spec_t_command(t))
    } else if c == 'f' {
        Ok(FlcModel { stages: m.stages.push(Seq::empty()), ..m })
    } else if c == 'h' {
        Ok(FlcModel { encoding: InputEncoding::HZ, ..m })
    } else if c == 'j' {
        Ok(FlcModel { encoding: InputEncoding::ShiftJIS, ..m })
    } else if c == 'b' {
        Ok(FlcModel { encoding: InputEncoding::Dbcs, ..m })
    } else if c == 'u' {
        Ok(FlcModel { encoding: InputEncoding::UTF8, ..m })
    } else if c == 'g' {
        match spec_g_command(t, m.iso) {
            Ok(iso) => Ok(FlcModel { iso, ..m }),
            Err(e) => Err(e),
        }
    } else if is_dec_digit(c) || c == '-' || c == '\\' {
        with_command(m, spec_number_command(t))
    } else {
        Ok(m)
    }
}

/// What the lines make of `m`, in order, the first of them being the file's first line if
/// `first`; a line that is not valid UTF-8 is an error.
pub open spec fn load_lines(lines: Seq<Seq<u8>>, first: bool, m: FlcModel) -> Result<
    FlcModel,
    Error,
>
    decreases lines.len(),
{
    if lines.len() == 0 {
        Ok(m)
    } else if !valid_utf8(lines[0]) {
        Err(Error::Io)
    } else {
        match load_line(decode_utf8(lines[0]), first, m) {
            Ok(m2) => load_lines(lines.drop_first(), false, m2),
            Err(e) => Err(e),
        }
    }
}

/// What parsing the control file `data` gives.
pub open spec fn spec_load(data: Seq<u8>) -> Result<FlcModel, Error> {
    load_lines(lines_of(data), true, initial_model())
}

proof fn lemma_mapping_wf(inp: Seq<char>, out: Seq<char>)
    ensures
        spec_mapping(inp, out) matches Ok(c) ==> command_wf(c),
{
}


proof fn lemma_command_line_wf(line: Seq<char>)
    ensures
        spec_t_command(line) matches Ok(Some(c)) ==> command_wf(c),
        spec_number_command(line) matches Ok(Some(c)) ==> command_wf(c),
{
    let tokens = split_ws(line);
    if tokens.len() >= 3 {
        lemma_mapping_wf(tokens[1], tokens[2]);
    }
    if tokens.len() >= 2 {
        lemma_mapping_wf(tokens[0], tokens[1]);
    }
}

/// Add `c` at the end of the last stage.
fn push_to_last_stage(stages: &mut Vec<TransformationStage>, c: FlcCommand)
    requires
        old(stages)@.len() >= 1,
        stages_wf(stage_views(old(stages)@)),
        command_wf(c),
    ensures
        final(stages)@.len() == old(stages)@.len(),
        stage_views(final(stages)@) == stage_views(old(stages)@).update(
            old(stages)@.len() - 1,
            stage_views(old(stages)@).last().push(c),
        ),
        stages_wf(stage_views(final(stages)@)),
{
    let ghost before = stage_views(stages@);
    let mut st = stages.pop().unwrap();
    assert(st.cmds() == before.last());
    st.commands.push(c);
    stages.push(st);
    let ghost after = stage_views(stages@);
    assert(after =~= before.update(before.len() - 1, before.last().push(c)));
    assert forall|i: int, j: int|
        0 <= i < after.len() && 0 <= j < after[i].len() implies command_wf(#[trigger] after[i][j]) by {
        if i < after.len() - 1 {
            assert(after[i] == before[i]);
        } else if j < before.last().len() {
            assert(after[i][j] == before[i][j]);
        }
    }
}

/// Apply one line of a control file to the state of loading (`first` for the first line).
fn load_one_line(
    raw: &[char],
    first: bool,
    stages: &mut Vec<TransformationStage>,
    encoding: &mut InputEncoding,
    iso: &mut Iso2022Settings,
) -> (r: Result<(), Error>)
    requires
        old(stages)@.len() >= 1,
        stages_wf(stage_views(old(stages)@)),
    ensures
        final(stages)@.len() >= 1,
        stages_wf(stage_views(final(stages)@)),
        match load_line(
            raw@,
            first,
            FlcModel { stages: stage_views(old(stages)@), encoding: *old(encoding), iso: *old(iso) },
        ) {
            Ok(m) => {
                &&& r is Ok
                &&& m.stages == stage_views(final(stages)@)
                &&& m.encoding == *final(encoding)
                &&& m.iso == *final(iso)
            },
            Err(e) => r == Err::<(), Error>(e),
        },
{
    let e = trim_end_len(raw);
    let line = slice_subrange(raw, 0, e);
    assert(line@ =~= trim_end(raw@));
    if first && line.len() == 5 && line[0] == 'f' && line[1] == 'l' && line[2] == 'c' && line[3]
        == '2' && line[4] == 'a' {
        assert(line@ =~= flc_signature());
        return Ok(());
    }
    proof {
        if first && line@ == flc_signature() {
            assert(line@[4] == 'a');
        }
    }
    if line.len() == 0 || line[0] == '#' {
        return Ok(());
    }
    let b = trim_start_pos(line);
    let t = slice_subrange(line, b, line.len());
    assert(t@ =~= trim_start(line@));
    if t.len() == 0 {
        return Ok(());
    }
    apply_command_line(t, stages, encoding, iso)
}

/// Apply a command line (without leading whitespace) to the state of loading.
fn apply_command_line(
    t: &[char],
    stages: &mut Vec<TransformationStage>,
    encoding: &mut InputEncoding,
    iso: &mut Iso2022Settings,
) -> (r: Result<(), Error>)
    requires
        t@.len() > 0,
        old(stages)@.len() >= 1,
        stages_wf(stage_views(old(stages)@)),
    ensures
        final(stages)@.len() >= 1,
        stages_wf(stage_views(final(stages)@)),
        match load_command(
            t@,
            FlcModel { stages: stage_views(old(stages)@), encoding: *old(encoding), iso: *old(iso) },
        ) {
            Ok(m) => {
                &&& r is Ok
                &&& m.stages == stage_views(final(stages)@)
                &&& m.encoding == *final(encoding)
                &&& m.iso == *final(iso)
            },
            Err(e) => r == Err::<(), Error>(e),
        },
{
    proof {
        lemma_command_line_wf(t@);
        reveal(load_command);
    }
    let c = t[0];
    if c == 't' {
        match parse_t_command(t) {
            Ok(Some(cmd)) => {
                push_to_last_stage(stages, cmd);
                Ok(())
            },
            Ok(None) => Ok(()),
            Err(e) => Err(e),
        }
    } else if c == 'f' {
        let ghost before = stage_views(stages@);
        stages.push(TransformationStage { commands: Vec::new() });
        proof {
            let after = stage_views(stages@);
            assert(after =~= before.push(Seq::empty()));
            assert forall|i: int, j: int|
                0 <= i < after.len() && 0 <= j < after[i].len() implies command_wf(
                #[trigger] after[i][j],
            ) by {
                assert(after[i] == before[i]);
            }
        }
        Ok(())
    } else if c == 'h' {
        *encoding = InputEncoding::HZ;
        Ok(())
    } else if c == 'j' {
        *encoding = InputEncoding::ShiftJIS;
        Ok(())
    } else if c == 'b' {
        *encoding = InputEncoding::Dbcs;
        Ok(())
    } else if c == 'u' {
        *encoding = InputEncoding::UTF8;
        Ok(())
    } else if c == 'g' {
        match parse_g_command(t, *iso) {
            Ok(n) => {
                *iso = n;
                Ok(())
            },
            Err(e) => Err(e),
        }
    } else if ('0' <= c && c <= '9') || c == '-' || c == '\\' {
        match parse_number_command(t) {
            Ok(Some(cmd)) => {
                push_to_last_stage(stages, cmd);
                Ok(())
            },
            Ok(None) => Ok(()),
            Err(e) => Err(e),
        }
    } else {
        Ok(())
    }
}

/// `r` is the control file that the loading result `m` describes, or the same error.
pub open spec fn loaded_as(r: Result<Flc, Error>, m: Result<FlcModel, Error>) -> bool {
    match m {
        Ok(m) => r matches Ok(f) && f.stage_cmds() == m.stages && f.spec_encoding() == m.encoding
            && f.spec_iso2022() == m.iso,
        Err(e) => r == Err::<Flc, Error>(e),
    }
}

impl Flc {
    /// Parse control file data: the bytes of a file, line by line (each must be UTF-8).
    pub fn load_from_bytes(data: &[u8]) -> (r: Result<Flc, Error>)
        ensures
            loaded_as(r, spec_load(data@)),
    {
        let mut stages: Vec<TransformationStage> = Vec::new();
        stages.push(TransformationStage { commands: Vec::new() });
        let mut encoding = InputEncoding::Default;
        let mut iso = Iso2022Settings::default();
        let mut first = true;
        let mut i: usize = 0;
        assert(stage_views(stages@) =~= seq![Seq::<FlcCommand>::empty()]);
        while i < data.len()
            invariant
                i <= data@.len(),
                stages@.len() >= 1,
                stages_wf(stage_views(stages@)),
                spec_load(data@) == load_lines(
                    lines_from(data@, i as int),
                    first,
                    FlcModel { stages: stage_views(stages@), encoding, iso },
                ),
            decreases data@.len() - i,
        {
            let mut j = i;
            while j < data.len() && data[j] != 10
                invariant
                    i <= j <= data@.len(),
                    next_newline(data@, i as int) == next_newline(data@, j as int),
                decreases data@.len() - j,
            {
                j = j + 1;
            }
            let line = slice_subrange(data, i, j);
            let ghost rest = if j < data@.len() {
                lines_from(data@, j + 1)
            } else {
                Seq::empty()
            };
            assert(lines_from(data@, i as int) =~= seq![line@] + rest);
            assert((seq![line@] + rest)[0] == line@);
            assert((seq![line@] + rest).drop_first() =~= rest);
            let chars = match utf8_to_chars(line) {
                Some(c) => c,
                None => return Err(Error::Io),
            };
            match load_one_line(chars.as_slice(), first, &mut stages, &mut encoding, &mut iso) {
                Ok(()) => {},
                Err(e) => return Err(e),
            }
            first = false;
            if j < data.len() {
                i = j + 1;
            } else {
                i = j;
            }
        }
        Ok(Flc { stages, encoding, iso2022: iso })
    }

    /// Parse the contents of a control file, which may be compressed: a ZIP archive is read
    /// from the decompressed contents of its first entry, and one that cannot be
    /// decompressed is refused.
    pub fn load_from_file_bytes(data: &[u8]) -> (r: Result<Flc, Error>)
        ensures
            if spec_is_zip(data@) {
                match zip_first_entry(data@, MAX_DECOMPRESSED_SIZE) {
                    Some(d) => loaded_as(r, spec_load(d)),
                    None => r == Err::<Flc, Error>(Error::ControlFormat("failed to decompress ZIP")),
                }
            } else {
                loaded_as(r, spec_load(data@))
            },
    {
        if is_zip(data) {
            match decompress_zip(data, MAX_DECOMPRESSED_SIZE) {
                Some(d) => Flc::load_from_bytes(d.as_slice()),
                None => Err(Error::ControlFormat("failed to decompress ZIP")),
            }
        } else {
            Flc::load_from_bytes(data)
        }
    }
}


/// The encoding command a line begins with sets the encoding, whatever it was before, and
/// changes nothing else: the last such command wins.
pub proof fn law_last_encoding_command_wins(t: Seq<char>, m: FlcModel)
    requires
        t.len() > 0,
        t[0] == 'h' || t[0] == 'j' || t[0] == 'b' || t[0] == 'u',
    ensures
        load_command(t, m) == Ok::<FlcModel, Error>(
            FlcModel {
                encoding: if t[0] == 'h' {
                    InputEncoding::HZ
                } else if t[0] == 'j' {
                    InputEncoding::ShiftJIS
                } else if t[0] == 'b' {
                    InputEncoding::Dbcs
                } else {
                    InputEncoding::UTF8
                },
                ..m
            },
        ),
{
    reveal(load_command);
}

/// Every other command line leaves the encoding as it was: a file's encoding is the default
/// exactly when none of its lines is an encoding command.
pub proof fn law_other_commands_keep_encoding(t: Seq<char>, m: FlcModel)
    requires
        t.len() > 0,
        !(t[0] == 'h' || t[0] == 'j' || t[0] == 'b' || t[0] == 'u'),
    ensures
        load_command(t, m) matches Ok(m2) ==> m2.encoding == m.encoding,
{
    reveal(load_command);
}

/// A freeze line ("f") begins a new, empty stage after those so far.
pub proof fn law_freeze_begins_new_stage(t: Seq<char>, m: FlcModel)
    requires
        t.len() > 0,
        t[0] == 'f',
    ensures
        load_command(t, m) == Ok::<FlcModel, Error>(
            FlcModel { stages: m.stages.push(Seq::empty()), ..m },
        ),
{
    reveal(load_command);
}

/// Blank lines and comment lines change nothing.
pub proof fn law_comments_and_blank_lines_change_nothing(raw: Seq<char>, first: bool, m: FlcModel)
    requires
        trim_end(raw).len() == 0 || trim_end(raw)[0] == '#',
    ensures
        load_line(raw, first, m) == Ok::<FlcModel, Error>(m),
{
}


/// Tokenize an FLC line at whitespace; escapes ("\\0x41", "\\n") stay within their token and
/// consecutive "\\0x" escapes stay together, so the tokens are the line's words.
fn tokenize_flc_line(line: &[char]) -> (tokens: Vec<Vec<char>>)
    ensures
        views(tokens@) == split_ws(line@),
{
    let mut tokens: Vec<Vec<char>> = Vec::new();
    let mut current: Vec<char> = Vec::new();
    let mut i: usize = 0;
    assert(line@.skip(0) =~= line@);
    while i < line.len()
        invariant
            i <= line@.len(),
            split_ws(line@) == views(tokens@) + split_ws_from(line@.skip(i as int), current@),
        decreases line@.len() - i,
    {
        let ghost i0 = i;
        let ch = line[i];
        proof {
            lemma_split_step(line@, i as int, current@);
        }
        if is_whitespace(ch) {
            if current.len() > 0 {
                let ghost before = views(tokens@);
                let done = current;
                tokens.push(done);
                current = Vec::new();
                assert(views(tokens@) =~= before.push(done@));
                assert(before + (seq![done@] + split_ws_from(line@.skip(i + 1), Seq::empty()))
                    =~= views(tokens@) + split_ws_from(line@.skip(i + 1), current@));
            } else {
                assert(current@ =~= Seq::<char>::empty());
            }
            i = i + 1;
        } else if ch == '\\' {
            current.push(ch);
            i = i + 1;
            if i < line.len() && line[i] == '0' {
                proof {
                    lemma_split_step(line@, i as int, current@);
                }
                current.push(line[i]);
                i = i + 1;
                if i < line.len() && (line[i] == 'x' || line[i] == 'X') {
                    proof {
                        lemma_split_step(line@, i as int, current@);
                    }
                    current.push(line[i]);
                    i = i + 1;
                    while i < line.len() && is_hex(line[i])
                        invariant
                            i0 < i <= line@.len(),
                            split_ws(line@) == views(tokens@) + split_ws_from(
                                line@.skip(i as int),
                                current@,
                            ),
                        decreases line@.len() - i,
                    {
                        proof {
                            lemma_split_step(line@, i as int, current@);
                        }
                        current.push(line[i]);
                        i = i + 1;
                    }
                }
            } else {
                while i < line.len() && !is_whitespace(line[i])
                    invariant
                        i0 < i <= line@.len(),
                        split_ws(line@) == views(tokens@) + split_ws_from(
                            line@.skip(i as int),
                            current@,
                        ),
                    decreases line@.len() - i,
                {
                    proof {
                        lemma_split_step(line@, i as int, current@);
                    }
                    current.push(line[i]);
                    i = i + 1;
                }
            }
        } else {
            current.push(ch);
            i = i + 1;
        }
    }
    if current.len() > 0 {
        let ghost before = views(tokens@);
        let done = current;
        tokens.push(done);
        assert(views(tokens@) =~= before.push(done@));
        assert(split_ws_from(line@.skip(i as int), done@) =~= seq![done@]);
    } else {
        assert(split_ws_from(line@.skip(i as int), current@) =~= Seq::<Seq<char>>::empty());
    }
    assert(views(tokens@) + Seq::<Seq<char>>::empty() =~= views(tokens@));
    tokens
}

/// One step of splitting at whitespace, from position `i` with the word `cur` begun.
proof fn lemma_split_step(line: Seq<char>, i: int, cur: Seq<char>)
    requires
        0 <= i < line.len(),
    ensures
        split_ws_from(line.skip(i), cur) == if is_ws(line[i]) {
            if cur.len() > 0 {
                seq![cur] + split_ws_from(line.skip(i + 1), Seq::empty())
            } else {
                split_ws_from(line.skip(i + 1), Seq::empty())
            }
        } else {
            split_ws_from(line.skip(i + 1), cur.push(line[i]))
        },
{
    assert(line.skip(i)[0] == line[i]);
    assert(line.skip(i).drop_first() =~= line.skip(i + 1));
}

} // verus!
