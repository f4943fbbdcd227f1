//! Frame codec: `S<f1>,<f2>,...,<fn>E\n` lines of decimal fields.
use vstd::prelude::*;

verus! {

/// The sentinel that opens a frame (`S`).
pub const FRAME_START: u8 = 0x53;
/// The sentinel that closes a frame (`E`).
pub const FRAME_END: u8 = 0x45;
/// The field separator (`,`).
pub const FIELD_SEP: u8 = 0x2c;
/// The line terminator (`\n`).
pub const LINE_FEED: u8 = 0x0a;
/// A carriage return, dropped before a line feed (`\r`).
pub const CARRIAGE_RETURN: u8 = 0x0d;
/// An optional sign in front of a numeric field (`+`).
pub const PLUS_SIGN: u8 = 0x2b;
/// The digit zero (`0`).
pub const DIGIT_ZERO: u8 = 0x30;
/// The digit one (`1`), the only field text that reads as a true flag.
pub const DIGIT_ONE: u8 = 0x31;

/// A command for the peer: servo angles in degrees, then digital output flags.
pub struct ServoCommand {
    pub angles: Vec<u8>,
    pub digital_outputs: Vec<bool>,
}

/// What the decoder could not find in a chunk of bytes.
#[derive(PartialEq, Eq, Structural, Clone, Copy, Debug)]
pub enum DecodeError {
    /// No line both starts with `S` and ends with `E`.
    NoValidFrame,
    /// The first frame holds fewer fields than the layout asks for.
    MalformedFrame,
}

/// How many fields of each kind a status frame carries, in this order.
#[derive(PartialEq, Eq, Structural, Clone, Copy, Debug)]
pub struct FrameLayout {
    pub servos: usize,
    pub outputs: usize,
    pub inputs: usize,
}

/// Servos the peer drives.
pub const SERVO_COUNT: usize = 6;
/// Digital outputs the peer drives.
pub const OUTPUT_COUNT: usize = 3;
/// Digital inputs the peer reads.
pub const INPUT_COUNT: usize = 3;

pub open spec fn status_layout_spec() -> FrameLayout {
    FrameLayout { servos: SERVO_COUNT, outputs: OUTPUT_COUNT, inputs: INPUT_COUNT }
}

/// The layout the peer answers with: six servos, three outputs, three inputs.
pub fn status_layout() -> (r: FrameLayout)
    ensures
        r == status_layout_spec(),
{
    FrameLayout { servos: SERVO_COUNT, outputs: OUTPUT_COUNT, inputs: INPUT_COUNT }
}

/// A decoded status: servo angles, echoed output flags, input readings.
pub struct StatusRecord {
    pub servo_angles: Vec<u8>,
    pub digital_outputs: Vec<bool>,
    pub digital_inputs: Vec<bool>,
}

/// The mathematical value of a status record.
pub struct StatusView {
    pub servo_angles: Seq<u8>,
    pub digital_outputs: Seq<bool>,
    pub digital_inputs: Seq<bool>,
}

impl View for StatusRecord {
    type V = StatusView;

    open spec fn view(&self) -> StatusView {
        StatusView {
            servo_angles: self.servo_angles@,
            digital_outputs: self.digital_outputs@,
            digital_inputs: self.digital_inputs@,
        }
    }
}

/// The ASCII decimal digits of `n`, most significant first, without leading zeros.
pub open spec fn decimal(n: nat) -> Seq<u8>
    decreases n,
{
    if n < 10 {
        seq![(DIGIT_ZERO + n) as u8]
    } else {
        decimal(n / 10).push((DIGIT_ZERO + n % 10) as u8)
    }
}

/// The wire text of a digital flag: `1` or `0`.
pub open spec fn flag_field(b: bool) -> Seq<u8> {
    if b {
        seq![DIGIT_ONE]
    } else {
        seq![DIGIT_ZERO]
    }
}

/// The fields of a command, angles first, then flags.
pub open spec fn command_fields(angles: Seq<u8>, outputs: Seq<bool>) -> Seq<Seq<u8>> {
    angles.map_values(|a: u8| decimal(a as nat)) + outputs.map_values(|b: bool| flag_field(b))
}

/// The fields joined with `sep` between each two neighbours.
pub open spec fn join(fields: Seq<Seq<u8>>, sep: u8) -> Seq<u8>
    decreases fields.len(),
{
    if fields.len() == 0 {
        Seq::empty()
    } else if fields.len() == 1 {
        fields[0]
    } else {
        join(fields.drop_last(), sep).push(sep) + fields.last()
    }
}

/// A complete frame around the given fields, line terminator included.
pub open spec fn frame_of(fields: Seq<Seq<u8>>) -> Seq<u8> {
    seq![FRAME_START] + join(fields, FIELD_SEP) + seq![FRAME_END, LINE_FEED]
}

/// The frame that encodes a command with these angles and flags.
pub open spec fn command_frame(angles: Seq<u8>, outputs: Seq<bool>) -> Seq<u8> {
    frame_of(command_fields(angles, outputs))
}

proof fn lemma_decimal_small(n: nat)
    requires
        n < 256,
    ensures
        n < 10 ==> decimal(n) == seq![(DIGIT_ZERO + n) as u8],
        10 <= n < 100 ==> decimal(n) == seq![(DIGIT_ZERO + n / 10) as u8, (DIGIT_ZERO + n % 10) as u8],
        100 <= n ==> decimal(n) == seq![
            (DIGIT_ZERO + n / 100) as u8,
            (DIGIT_ZERO + (n / 10) % 10) as u8,
            (DIGIT_ZERO + n % 10) as u8,
        ],
{
    if n >= 10 {
        assert(decimal(n) == decimal(n / 10).push((DIGIT_ZERO + n % 10) as u8));
        if n >= 100 {
            assert(n / 10 / 10 == n / 100);
            assert(decimal(n / 10) == decimal(n / 100).push((DIGIT_ZERO + (n / 10) % 10) as u8));
            assert(decimal(n / 100) == seq![(DIGIT_ZERO + n / 100) as u8]);
            assert(decimal(n) =~= seq![
                (DIGIT_ZERO + n / 100) as u8,
                (DIGIT_ZERO + (n / 10) % 10) as u8,
                (DIGIT_ZERO + n % 10) as u8,
            ]);
        } else {
            assert(decimal(n / 10) == seq![(DIGIT_ZERO + n / 10) as u8]);
            assert(decimal(n) =~= seq![(DIGIT_ZERO + n / 10) as u8, (DIGIT_ZERO + n % 10) as u8]);
        }
    }
}

/// Appends the decimal digits of `n`.
fn push_decimal(out: &mut Vec<u8>, n: u8)
    ensures
        final(out)@ == old(out)@ + decimal(n as nat),
{
    proof {
        lemma_decimal_small(n as nat);
    }
    if n >= 100 {
        out.push(DIGIT_ZERO + n / 100);
    }
    if n >= 10 {
        out.push(DIGIT_ZERO + (n / 10) % 10);
    }
    out.push(DIGIT_ZERO + n % 10);
    assert(final(out)@ =~= old(out)@ + decimal(n as nat));
}


proof fn lemma_join_step(fields: Seq<Seq<u8>>, k: int, sep: u8)
    requires
        0 <= k < fields.len(),
    ensures
        k == 0 ==> join(fields.take(k + 1), sep) == fields[k],
        k > 0 ==> join(fields.take(k + 1), sep) == join(fields.take(k), sep).push(sep) + fields[k],
{
    assert(fields.take(k + 1).drop_last() =~= fields.take(k));
    assert(fields.take(k + 1).last() == fields[k]);
}

/// Appends the separator (unless `first`) and then `field`.
fn push_field(out: &mut Vec<u8>, field: &[u8], first: bool)
    ensures
        first ==> final(out)@ == old(out)@ + field@,
        !first ==> final(out)@ == old(out)@.push(FIELD_SEP) + field@,
{
    let ghost start = out@;
    if !first {
        out.push(FIELD_SEP);
    }
    let ghost base = out@;
    let mut i: usize = 0;
    while i < field.len()
        invariant
            0 <= i <= field@.len(),
            first ==> base == start,
            !first ==> base == start.push(FIELD_SEP),
            out@ == base + field@.take(i as int),
        decreases field@.len() - i,
    {
        out.push(field[i]);
        i += 1;
        assert(out@ =~= base + field@.take(i as int));
    }
    assert(field@.take(i as int) =~= field@);
}

/// Encodes a command as a frame: `S`, the angles in decimal and then the
/// flags as `1` or `0`, all separated by commas, then `E` and a line feed.
pub fn encode_command(cmd: &ServoCommand) -> (r: Vec<u8>)
    requires
        cmd.angles@.len() + cmd.digital_outputs@.len() <= usize::MAX,
    ensures
        r@ == command_frame(cmd.angles@, cmd.digital_outputs@),
{
    let ghost fields = command_fields(cmd.angles@, cmd.digital_outputs@);
    let ghost na = cmd.angles@.len();
    let mut out: Vec<u8> = Vec::new();
    out.push(FRAME_START);
    let mut i: usize = 0;
    while i < cmd.angles.len()
        invariant
            0 <= i <= na,
            na == cmd.angles@.len(),
            fields == command_fields(cmd.angles@, cmd.digital_outputs@),
            out@ == seq![FRAME_START] + join(fields.take(i as int), FIELD_SEP),
        decreases na - i,
    {
        let mut digits: Vec<u8> = Vec::new();
        push_decimal(&mut digits, cmd.angles[i]);
        assert(digits@ =~= decimal(cmd.angles@[i as int] as nat));
        assert(fields[i as int] == digits@);
        proof {
            lemma_join_step(fields, i as int, FIELD_SEP);
        }
        push_field(&mut out, digits.as_slice(), i == 0);
        i += 1;
        assert(out@ =~= seq![FRAME_START] + join(fields.take(i as int), FIELD_SEP));
    }
    let mut j: usize = 0;
    while j < cmd.digital_outputs.len()
        invariant
            0 <= j <= cmd.digital_outputs@.len(),
            na == cmd.angles@.len(),
            i == na,
            na + cmd.digital_outputs@.len() <= usize::MAX,
            fields == command_fields(cmd.angles@, cmd.digital_outputs@),
            out@ == seq![FRAME_START] + join(fields.take(na + j), FIELD_SEP),
        decreases cmd.digital_outputs@.len() - j,
    {
        let field: Vec<u8> = if cmd.digital_outputs[j] {
            vec![DIGIT_ONE]
        } else {
            vec![DIGIT_ZERO]
        };
        assert(field@ =~= flag_field(cmd.digital_outputs@[j as int]));
        assert(fields[na + j] == field@);
        proof {
            lemma_join_step(fields, na + j, FIELD_SEP);
        }
        push_field(&mut out, field.as_slice(), i == 0 && j == 0);
        j += 1;
        assert(out@ =~= seq![FRAME_START] + join(fields.take(na + j), FIELD_SEP));
    }
    assert(fields.take(na + j) =~= fields);
    out.push(FRAME_END);
    out.push(LINE_FEED);
    assert(out@ =~= command_frame(cmd.angles@, cmd.digital_outputs@));
    out
}


/// `s` cut at every `sep`; the cuts are dropped and there is always one
/// piece more than there are separators.
pub open spec fn split(s: Seq<u8>, sep: u8) -> Seq<Seq<u8>>
    decreases s.len(),
{
    if s.len() == 0 {
        seq![Seq::empty()]
    } else {
        let pieces = split(s.drop_last(), sep);
        if s.last() == sep {
            pieces.push(Seq::empty())
        } else {
            pieces.update(pieces.len() - 1, pieces.last().push(s.last()))
        }
    }
}

/// A line without its trailing carriage return, if it has one.
pub open spec fn strip_cr(line: Seq<u8>) -> Seq<u8> {
    if line.len() > 0 && line.last() == CARRIAGE_RETURN {
        line.drop_last()
    } else {
        line
    }
}

/// The lines of a chunk: cut at line feeds; a carriage return right before
/// a line feed goes with it, one at the very end of the chunk stays.
pub open spec fn lines(bytes: Seq<u8>) -> Seq<Seq<u8>> {
    let pieces = split(bytes, LINE_FEED);
    Seq::new(
        pieces.len(),
        |i: int|
            if i < pieces.len() - 1 {
                strip_cr(pieces[i])
            } else {
                pieces[i]
            },
    )
}

/// A line that starts with `S` and ends with a distinct `E`.
pub open spec fn is_frame_line(line: Seq<u8>) -> bool {
    line.len() >= 2 && line[0] == FRAME_START && line.last() == FRAME_END
}

/// The first frame line, if any.
pub open spec fn first_frame(ls: Seq<Seq<u8>>) -> Option<Seq<u8>>
    decreases ls.len(),
{
    if ls.len() == 0 {
        None
    } else if is_frame_line(ls[0]) {
        Some(ls[0])
    } else {
        first_frame(ls.drop_first())
    }
}

/// A frame line's fields: its text between the sentinels, cut at commas.
pub open spec fn frame_fields(line: Seq<u8>) -> Seq<Seq<u8>> {
    split(line.subrange(1, line.len() - 1), FIELD_SEP)
}

pub open spec fn is_digit(b: u8) -> bool {
    DIGIT_ZERO <= b <= DIGIT_ZERO + 9
}

pub open spec fn all_digits(s: Seq<u8>) -> bool {
    forall|i: int| 0 <= i < s.len() ==> is_digit(#[trigger] s[i])
}

/// The number that a string of decimal digits spells.
pub open spec fn digits_value(s: Seq<u8>) -> nat
    decreases s.len(),
{
    if s.len() == 0 {
        0
    } else {
        digits_value(s.drop_last()) * 10 + (s.last() - DIGIT_ZERO) as nat
    }
}

/// The text after an optional leading `+`.
pub open spec fn unsigned_digits(f: Seq<u8>) -> Seq<u8> {
    if f.len() > 0 && f[0] == PLUS_SIGN {
        f.drop_first()
    } else {
        f
    }
}

/// A field read as a byte-sized number: an optional `+`, then at least one
/// digit, with a value of at most 255; anything else reads as nothing.
pub open spec fn parse_angle(f: Seq<u8>) -> Option<u8> {
    let d = unsigned_digits(f);
    if d.len() > 0 && all_digits(d) && digits_value(d) <= 255 {
        Some(digits_value(d) as u8)
    } else {
        None
    }
}

/// The angles of the fields that read as numbers, in order; the others are dropped.
pub open spec fn parsed_angles(fields: Seq<Seq<u8>>) -> Seq<u8>
    decreases fields.len(),
{
    if fields.len() == 0 {
        Seq::empty()
    } else {
        match parse_angle(fields.last()) {
            Some(a) => parsed_angles(fields.drop_last()).push(a),
            None => parsed_angles(fields.drop_last()),
        }
    }
}

/// A flag field is true exactly when its text is `1`.
pub open spec fn parse_flag(f: Seq<u8>) -> bool {
    f == seq![DIGIT_ONE]
}

pub open spec fn parsed_flags(fields: Seq<Seq<u8>>) -> Seq<bool> {
    fields.map_values(|f: Seq<u8>| parse_flag(f))
}

/// The status that the first frame of `bytes` holds under `layout`.
pub open spec fn decode_spec(bytes: Seq<u8>, layout: FrameLayout) -> Result<StatusView, DecodeError> {
    match first_frame(lines(bytes)) {
        None => Err(DecodeError::NoValidFrame),
        Some(line) => {
            let fields = frame_fields(line);
            let s = layout.servos as int;
            let o = layout.outputs as int;
            let i = layout.inputs as int;
            if fields.len() < s + o + i {
                Err(DecodeError::MalformedFrame)
            } else {
                Ok(
                    StatusView {
                        servo_angles: parsed_angles(fields.take(s)),
                        digital_outputs: parsed_flags(fields.subrange(s, s + o)),
                        digital_inputs: parsed_flags(fields.subrange(s + o, s + o + i)),
                    },
                )
            }
        },
    }
}

pub open spec fn views(v: Seq<Vec<u8>>) -> Seq<Seq<u8>> {
    v.map_values(|x: Vec<u8>| x@)
}

/// Cuts `s` at every `sep`.
fn split_bytes(s: &[u8], sep: u8) -> (r: Vec<Vec<u8>>)
    ensures
        views(r@) == split(s@, sep),
{
    let mut pieces: Vec<Vec<u8>> = Vec::new();
    let mut cur: Vec<u8> = Vec::new();
    let mut i: usize = 0;
    while i < s.len()
        invariant
            0 <= i <= s@.len(),
            views(pieces@).push(cur@) == split(s@.take(i as int), sep),
        decreases s@.len() - i,
    {
        let ghost prev = views(pieces@).push(cur@);
        assert(s@.take(i + 1).drop_last() =~= s@.take(i as int));
        assert(s@.take(i + 1).last() == s@[i as int]);
        if s[i] == sep {
            let done = cur;
            pieces.push(done);
            cur = Vec::new();
            assert(views(pieces@).push(cur@) =~= prev.push(Seq::empty()));
        } else {
            cur.push(s[i]);
            assert(views(pieces@).push(cur@) =~= prev.update(prev.len() - 1, prev.last().push(s@[i as int])));
        }
        i += 1;
    }
    assert(s@.take(i as int) =~= s@);
    pieces.push(cur);
    assert(views(pieces@) =~= split(s@, sep));
    pieces
}

proof fn lemma_digits_monotone(s: Seq<u8>, k: int)
    requires
        0 <= k <= s.len(),
        all_digits(s),
    ensures
        digits_value(s) >= digits_value(s.take(k)),
    decreases s.len(),
{
    if k < s.len() {
        assert(all_digits(s.drop_last()));
        lemma_digits_monotone(s.drop_last(), k);
        assert(s.drop_last().take(k) =~= s.take(k));
        assert(is_digit(s[s.len() - 1]));
    } else {
        assert(s.take(k) =~= s);
    }
}

/// Reads a field as a byte-sized number, as `parse_angle` says.
pub fn parse_angle_field(f: &[u8]) -> (r: Option<u8>)
    ensures
        r == parse_angle(f@),
{
    let start: usize = if f.len() > 0 && f[0] == PLUS_SIGN {
        1
    } else {
        0
    };
    let ghost d = unsigned_digits(f@);
    assert(d =~= f@.skip(start as int));
    if start == f.len() {
        return None;
    }
    let mut acc: u32 = 0;
    let mut i: usize = start;
    while i < f.len()
        invariant
            start <= i <= f@.len(),
            d == f@.skip(start as int),
            d == unsigned_digits(f@),
            d.len() > 0,
            acc <= 255,
            all_digits(d.take(i - start)),
            acc == digits_value(d.take(i - start)),
        decreases f@.len() - i,
    {
        let b = f[i];
        if b < DIGIT_ZERO || b > DIGIT_ZERO + 9 {
            assert(!is_digit(d[i - start]));
            assert(!all_digits(d));
            return None;
        }
        let ghost k = i - start;
        assert(d.take(k + 1).drop_last() =~= d.take(k));
        assert(d.take(k + 1).last() == b);
        assert(digits_value(d.take(k + 1)) == digits_value(d.take(k)) * 10 + (b - DIGIT_ZERO) as nat);
        acc = acc * 10 + (b - DIGIT_ZERO) as u32;
        i += 1;
        assert(all_digits(d.take(i - start)));
        if acc > 255 {
            proof {
                if all_digits(d) {
                    lemma_digits_monotone(d, i - start);
                }
            }
            return None;
        }
    }
    assert(d.take(i - start) =~= d);
    Some(acc as u8)
}


/// The angles that the first `count` fields read as, parse failures dropped.
fn angles_of(fields: &Vec<Vec<u8>>, count: usize) -> (r: Vec<u8>)
    requires
        count <= fields@.len(),
    ensures
        r@ == parsed_angles(views(fields@).take(count as int)),
{
    let ghost fv = views(fields@);
    let mut out: Vec<u8> = Vec::new();
    let mut k: usize = 0;
    while k < count
        invariant
            k <= count <= fields@.len(),
            fv == views(fields@),
            out@ == parsed_angles(fv.take(k as int)),
        decreases count - k,
    {
        assert(fv.take(k + 1).drop_last() =~= fv.take(k as int));
        assert(fv.take(k + 1).last() == fields@[k as int]@);
        match parse_angle_field(fields[k].as_slice()) {
            Some(a) => out.push(a),
            None => {},
        }
        k += 1;
    }
    out
}

/// The flags that fields `from` up to `to` read as.
fn flags_of(fields: &Vec<Vec<u8>>, from: usize, to: usize) -> (r: Vec<bool>)
    requires
        from <= to <= fields@.len(),
    ensures
        r@ == parsed_flags(views(fields@).subrange(from as int, to as int)),
{
    let ghost fv = views(fields@);
    let mut out: Vec<bool> = Vec::new();
    let mut k: usize = from;
    while k < to
        invariant
            from <= k <= to <= fields@.len(),
            fv == views(fields@),
            out@ == parsed_flags(fv.subrange(from as int, k as int)),
        decreases to - k,
    {
        let f = &fields[k];
        let one = f.len() == 1 && f[0] == DIGIT_ONE;
        assert(one == (f@ =~= seq![DIGIT_ONE]));
        out.push(one);
        k += 1;
        assert(out@ =~= parsed_flags(fv.subrange(from as int, k as int)));
    }
    out
}

/// The length of a line once a trailing carriage return is dropped.
fn stripped_len(line: &Vec<u8>) -> (r: usize)
    ensures
        r <= line@.len(),
        line@.take(r as int) == strip_cr(line@),
{
    let n = line.len();
    if n > 0 && line[n - 1] == CARRIAGE_RETURN {
        assert(line@.take(n - 1) =~= line@.drop_last());
        n - 1
    } else {
        assert(line@.take(n as int) =~= line@);
        n
    }
}

proof fn lemma_first_frame_skip(ls: Seq<Seq<u8>>, k: int)
    requires
        0 <= k < ls.len(),
    ensures
        is_frame_line(ls[k]) ==> first_frame(ls.skip(k)) == Some(ls[k]),
        !is_frame_line(ls[k]) ==> first_frame(ls.skip(k)) == first_frame(ls.skip(k + 1)),
{
    assert(ls.skip(k)[0] == ls[k]);
    assert(ls.skip(k).drop_first() =~= ls.skip(k + 1));
}

/// Decodes the first frame in a chunk of bytes under `layout`: the chunk is
/// cut into lines, the first line that starts with `S` and ends with `E` is
/// taken, and its fields are read as angles and flags; numeric fields that do
/// not parse are dropped and a flag is true only for the text `1`.
pub fn decode_status_with(bytes: &[u8], layout: FrameLayout) -> (r: Result<StatusRecord, DecodeError>)
    ensures
        r matches Ok(rec) ==> decode_spec(bytes@, layout) == Ok::<StatusView, DecodeError>(rec@),
        r matches Err(e) ==> decode_spec(bytes@, layout) == Err::<StatusView, DecodeError>(e),
{
    let pieces = split_bytes(bytes, LINE_FEED);
    let ghost ls = lines(bytes@);
    assert(ls.len() == pieces@.len());
    let mut k: usize = 0;
    let mut found: Option<(usize, usize)> = None;
    assert(ls.skip(0) =~= ls);
    while k < pieces.len() && found.is_none()
        invariant
            0 <= k <= pieces@.len(),
            ls == lines(bytes@),
            ls.len() == pieces@.len(),
            views(pieces@) == split(bytes@, LINE_FEED),
            found is None ==> first_frame(ls) == first_frame(ls.skip(k as int)),
            found matches Some((j, n)) ==> j < pieces@.len() && n == ls[j as int].len()
                && first_frame(ls) == Some(ls[j as int]) && is_frame_line(ls[j as int]) && pieces@[j as int]@.take(n as int)
                == ls[j as int],
        decreases pieces@.len() - k + if found is None { 1int } else { 0int },
    {
        let line = &pieces[k];
        let n = if k + 1 < pieces.len() {
            stripped_len(line)
        } else {
            assert(line@.take(line@.len() as int) =~= line@);
            line.len()
        };
        assert(views(pieces@)[k as int] == line@);
        assert(ls[k as int] == line@.take(n as int));
        proof {
            lemma_first_frame_skip(ls, k as int);
        }
        if n >= 2 && line[0] == FRAME_START && line[n - 1] == FRAME_END {
            assert(ls[k as int][0] == line@[0]);
            assert(ls[k as int].last() == line@[n - 1]);
            found = Some((k, n));
        } else {
            k += 1;
        }
    }
    match found {
        None => {
            assert(ls.skip(k as int) =~= Seq::<Seq<u8>>::empty());
            Err(DecodeError::NoValidFrame)
        },
        Some((j, n)) => {
            let line = &pieces[j];
            let ghost lv = ls[j as int];
            let mut data: Vec<u8> = Vec::new();
            let mut p: usize = 1;
            while p < n - 1
                invariant
                    1 <= p <= n - 1,
                    n == lv.len(),
                    n >= 2,
                    line@.take(n as int) == lv,
                    n <= line@.len(),
                    data@ == lv.subrange(1, p as int),
                decreases n - 1 - p,
            {
                data.push(line[p]);
                p += 1;
                assert(data@ =~= lv.subrange(1, p as int));
            }
            let fields = split_bytes(data.as_slice(), FIELD_SEP);
            let ghost fv = views(fields@);
            assert(fv == frame_fields(lv));
            let total = fields.len();
            if total < layout.servos || total - layout.servos < layout.outputs || total
                - layout.servos - layout.outputs < layout.inputs {
                Err(DecodeError::MalformedFrame)
            } else {
                let s = layout.servos;
                let o = layout.outputs;
                let servo_angles = angles_of(&fields, s);
                let digital_outputs = flags_of(&fields, s, s + o);
                let digital_inputs = flags_of(&fields, s + o, s + o + layout.inputs);
                let rec = StatusRecord { servo_angles, digital_outputs, digital_inputs };
                Ok(rec)
            }
        },
    }
}

/// Decodes the first status frame in a chunk, under the peer's layout.
pub fn decode_status(bytes: &[u8]) -> (r: Result<StatusRecord, DecodeError>)
    ensures
        r matches Ok(rec) ==> decode_spec(bytes@, status_layout_spec()) == Ok::<StatusView, DecodeError>(rec@),
        r matches Err(e) ==> decode_spec(bytes@, status_layout_spec()) == Err::<StatusView, DecodeError>(e),
{
    decode_status_with(bytes, status_layout())
}


proof fn lemma_split_no_sep(s: Seq<u8>, sep: u8)
    requires
        !s.contains(sep),
    ensures
        split(s, sep) == seq![s],
    decreases s.len(),
{
    if s.len() > 0 {
        assert(!s.drop_last().contains(sep)) by {
            if s.drop_last().contains(sep) {
                let i = choose|i: int| 0 <= i < s.drop_last().len() && s.drop_last()[i] == sep;
                assert(s[i] == sep);
            }
        }
        lemma_split_no_sep(s.drop_last(), sep);
        assert(s[s.len() - 1] != sep);
        let pieces = split(s.drop_last(), sep);
        assert(split(s, sep) == pieces.update(pieces.len() - 1, pieces.last().push(s.last())));
        assert(pieces.last() == s.drop_last());
        assert(s.drop_last().push(s.last()) =~= s);
        assert(split(s, sep) =~= seq![s]);
    } else {
        assert(s =~= Seq::<u8>::empty());
    }
}

proof fn lemma_split_append(a: Seq<u8>, b: Seq<u8>, sep: u8)
    requires
        !b.contains(sep),
    ensures
        split(a.push(sep) + b, sep) == split(a, sep).push(b),
    decreases b.len(),
{
    let whole = a.push(sep) + b;
    if b.len() == 0 {
        assert(whole =~= a.push(sep));
        assert(whole.drop_last() =~= a);
        assert(whole.last() == sep);
        assert(b =~= Seq::<u8>::empty());
        assert(split(whole, sep) =~= split(a, sep).push(b));
    } else {
        let b0 = b.drop_last();
        assert(!b0.contains(sep)) by {
            if b0.contains(sep) {
                let i = choose|i: int| 0 <= i < b0.len() && b0[i] == sep;
                assert(b[i] == sep);
            }
        }
        lemma_split_append(a, b0, sep);
        assert(whole.drop_last() =~= a.push(sep) + b0);
        assert(b[b.len() - 1] != sep);
        assert(whole.last() == b.last());
        assert(b0.push(b.last()) =~= b);
        assert(split(whole, sep) =~= split(a, sep).push(b));
    }
}

pub open spec fn fields_free_of(fields: Seq<Seq<u8>>, x: u8) -> bool {
    forall|k: int| 0 <= k < fields.len() ==> !(#[trigger] fields[k]).contains(x)
}

proof fn lemma_split_join(fields: Seq<Seq<u8>>, sep: u8)
    requires
        fields.len() >= 1,
        fields_free_of(fields, sep),
    ensures
        split(join(fields, sep), sep) == fields,
    decreases fields.len(),
{
    if fields.len() == 1 {
        assert(!fields[0].contains(sep));
        lemma_split_no_sep(fields[0], sep);
        assert(seq![fields[0]] =~= fields);
    } else {
        let init = fields.drop_last();
        assert(fields_free_of(init, sep)) by {
            assert forall|k: int| 0 <= k < init.len() implies !(#[trigger] init[k]).contains(sep) by {
                assert(init[k] == fields[k]);
            }
        }
        lemma_split_join(init, sep);
        assert(!fields[fields.len() - 1].contains(sep));
        lemma_split_append(join(init, sep), fields.last(), sep);
        assert(init.push(fields.last()) =~= fields);
    }
}

proof fn lemma_join_free_of(fields: Seq<Seq<u8>>, sep: u8, x: u8)
    requires
        fields_free_of(fields, x),
        x != sep,
    ensures
        !join(fields, sep).contains(x),
    decreases fields.len(),
{
    if fields.len() == 1 {
        assert(!fields[0].contains(x));
    } else if fields.len() > 1 {
        let init = fields.drop_last();
        assert(fields_free_of(init, x)) by {
            assert forall|k: int| 0 <= k < init.len() implies !(#[trigger] init[k]).contains(x) by {
                assert(init[k] == fields[k]);
            }
        }
        lemma_join_free_of(init, sep, x);
        let left = join(init, sep).push(sep);
        let last = fields.last();
        assert(!last.contains(x));
        if join(fields, sep).contains(x) {
            let i = choose|i: int| 0 <= i < join(fields, sep).len() && join(fields, sep)[i] == x;
            if i < left.len() {
                if i < left.len() - 1 {
                    assert(join(init, sep)[i] == x);
                }
            } else {
                assert(last[i - left.len()] == x);
            }
        }
    }
}

proof fn lemma_decimal_digits(n: nat)
    ensures
        decimal(n).len() > 0,
        all_digits(decimal(n)),
        digits_value(decimal(n)) == n,
        decimal(n)[0] != PLUS_SIGN,
    decreases n,
{
    if n >= 10 {
        lemma_decimal_digits(n / 10);
        let d = decimal(n);
        assert(d.drop_last() =~= decimal(n / 10));
        assert(d.last() == (DIGIT_ZERO + n % 10) as u8);
        assert(digits_value(d) == digits_value(decimal(n / 10)) * 10 + n % 10);
        assert((n / 10) * 10 + n % 10 == n);
        assert(all_digits(d)) by {
            assert forall|i: int| 0 <= i < d.len() implies is_digit(#[trigger] d[i]) by {
                if i < d.len() - 1 {
                    assert(d[i] == decimal(n / 10)[i]);
                }
            }
        }
        assert(d[0] == decimal(n / 10)[0]);
    } else {
        assert(decimal(n).drop_last() =~= Seq::<u8>::empty());
        assert(digits_value(Seq::<u8>::empty()) == 0);
    }
}

proof fn lemma_field_digits_free(f: Seq<u8>, x: u8)
    requires
        all_digits(f),
        !is_digit(x),
    ensures
        !f.contains(x),
{
    if f.contains(x) {
        let i = choose|i: int| 0 <= i < f.len() && f[i] == x;
        assert(is_digit(f[i]));
    }
}

proof fn lemma_command_fields_digits(angles: Seq<u8>, outputs: Seq<bool>)
    ensures
        forall|k: int|
            0 <= k < command_fields(angles, outputs).len() ==> all_digits(
                #[trigger] command_fields(angles, outputs)[k],
            ),
{
    let fields = command_fields(angles, outputs);
    assert forall|k: int| 0 <= k < fields.len() implies all_digits(#[trigger] fields[k]) by {
        if k < angles.len() {
            lemma_decimal_digits(angles[k] as nat);
        } else {
            assert(fields[k] == flag_field(outputs[k - angles.len()]));
        }
    }
}

proof fn lemma_parsed_angles_of_decimals(angles: Seq<u8>)
    ensures
        parsed_angles(angles.map_values(|a: u8| decimal(a as nat))) == angles,
    decreases angles.len(),
{
    if angles.len() > 0 {
        let m = angles.map_values(|a: u8| decimal(a as nat));
        lemma_parsed_angles_of_decimals(angles.drop_last());
        assert(m.drop_last() =~= angles.drop_last().map_values(|a: u8| decimal(a as nat)));
        lemma_decimal_digits(angles.last() as nat);
        assert(unsigned_digits(m.last()) == m.last());
        assert(angles.drop_last().push(angles.last()) =~= angles);
    }
}

proof fn lemma_parsed_flags_of_fields(outputs: Seq<bool>)
    ensures
        parsed_flags(outputs.map_values(|b: bool| flag_field(b))) == outputs,
{
    let m = outputs.map_values(|b: bool| flag_field(b));
    assert forall|k: int| 0 <= k < outputs.len() implies parse_flag(m[k]) == outputs[k] by {
        if !outputs[k] {
            assert(m[k][0] != seq![DIGIT_ONE][0]);
        }
    }
    assert(parsed_flags(m) =~= outputs);
}

/// Decoding the frame of a command as a status frame of matching width (as
/// many servo fields as it has angles, as many output fields as it has
/// flags, no input fields) gives back exactly its angles and flags.
pub proof fn lemma_round_trip(angles: Seq<u8>, outputs: Seq<bool>)
    requires
        angles.len() <= usize::MAX,
        outputs.len() <= usize::MAX,
    ensures
        decode_spec(
            command_frame(angles, outputs),
            FrameLayout { servos: angles.len() as usize, outputs: outputs.len() as usize, inputs: 0 },
        ) == Ok::<StatusView, DecodeError>(
            StatusView { servo_angles: angles, digital_outputs: outputs, digital_inputs: Seq::empty() },
        ),
{
    let fields = command_fields(angles, outputs);
    let joined = join(fields, FIELD_SEP);
    let line = seq![FRAME_START] + joined + seq![FRAME_END];
    let frame = command_frame(angles, outputs);
    lemma_command_fields_digits(angles, outputs);
    assert(fields_free_of(fields, LINE_FEED)) by {
        assert forall|k: int| 0 <= k < fields.len() implies !(#[trigger] fields[k]).contains(LINE_FEED) by {
            lemma_field_digits_free(fields[k], LINE_FEED);
        }
    }
    assert(fields_free_of(fields, FIELD_SEP)) by {
        assert forall|k: int| 0 <= k < fields.len() implies !(#[trigger] fields[k]).contains(FIELD_SEP) by {
            lemma_field_digits_free(fields[k], FIELD_SEP);
        }
    }
    lemma_join_free_of(fields, FIELD_SEP, LINE_FEED);
    assert(!line.contains(LINE_FEED)) by {
        if line.contains(LINE_FEED) {
            let i = choose|i: int| 0 <= i < line.len() && line[i] == LINE_FEED;
            assert(joined[i - 1] == LINE_FEED);
        }
    }
    lemma_split_no_sep(line, LINE_FEED);
    assert(frame =~= line.push(LINE_FEED));
    assert(frame.drop_last() =~= line);
    let ls = lines(frame);
    assert(split(frame, LINE_FEED) =~= seq![line, Seq::empty()]);
    assert(ls[0] == strip_cr(line));
    assert(strip_cr(line) == line);
    assert(is_frame_line(line));
    assert(first_frame(ls) == Some(line));
    assert(line.subrange(1, line.len() - 1) =~= joined);
    let na = angles.len() as int;
    let no = outputs.len() as int;
    let fs = frame_fields(line);
    assert(fs == split(joined, FIELD_SEP));
    lemma_parsed_angles_of_decimals(angles);
    lemma_parsed_flags_of_fields(outputs);
    if fields.len() == 0 {
        assert(joined == Seq::<u8>::empty());
        assert(angles =~= Seq::<u8>::empty());
        assert(outputs =~= Seq::<bool>::empty());
        assert(fs.take(0) =~= angles.map_values(|a: u8| decimal(a as nat)));
        assert(fs.subrange(0, 0) =~= outputs.map_values(|b: bool| flag_field(b)));
        assert(parsed_flags(fs.subrange(0, 0)) =~= Seq::<bool>::empty());
    } else {
        lemma_split_join(fields, FIELD_SEP);
        assert(fs.take(na) =~= angles.map_values(|a: u8| decimal(a as nat)));
        assert(fs.subrange(na, na + no) =~= outputs.map_values(|b: bool| flag_field(b)));
        assert(parsed_flags(fs.subrange(na + no, na + no)) =~= Seq::<bool>::empty());
    }
}

} // verus!
