//! Colours, text formats and the ANSI escape codes that the terminal renders.
use vstd::prelude::*;
use crate::text::{chars_of, split_on, split_text, string_of, texts};

verus! {

broadcast use vstd::seq_lib::group_seq_properties;

/// The picture that `rook` prints.
pub const ICON: &'static str = "
                             ...                                      
                        .-+#@#-                                       
              :#%%%##+*@@@@@=                   :....  .              
              +@@@@#. %@@@%.                   .=--..:..... .         
              +@@=    %@@*                     .=:.---:....           
              :=      %@*                       :-===---.             
            .#@.      @#.                      :+++===-.              
           -@@@.      +-                      =***+++==-:::.          
          -@@@@.                          :+*%###***++=-:             
         =@@@@@.     =:                 =%@@@%%%###*=-=+=:            
        -@@@@@@.     #+               =@@@@@@@@%%###*+:  :-.          
       .@@@@@@@.     #+             -@@@@@@@@@@@%%#++**+:             
       +@@@@@@@.     #+       :=:. @@@@@@@@@@@@@@@%=   -*=.           
      .@@@@@@@@.     #+  -@@@@@@@@@@@@@@@@@@@@@@@@@%%=   .=.          
      =@@@@@@@@.     =-  ..-+@@@@@@@@@@@@@@@@@@@@@@@@%+.              
      *@@@@@@@@.               @@@@@@@@@@@@@@@@@@@@@=-##:             
     .@@@@@@@@@.      -:  :+#@@@@@@@@@@@@@@@@@@@@@@@@+.:+:            
     .@@@@@@@@@.      =+#@@@@@@@@@@@@@@@@@@@@@@@@@#=+%*. -:           
      %@@@@@@@@.     -@@@@@@@@@@@@@@@@@@@@@@@@@@@@*=-:*=              
      +@@@@@@@@.   .#@@@@@@@@@@@@@@@@@@@@@@@:#=*@#%=-=--.             
      -@@@@@@@@.  -@@@@@@@@@@@@@@@@@@@@@@@@@+@@@*%+*:+@+              
      .@@@@@@@%:=@@@@@@@@@@@@@@@@@@@@@@@@@@@#@@@%+#-%@@+              
       =@@@@**@@@@@@@@@@@@@+@@@@-=@@@@@@@@@% ..+@%=*##@+              
        +#=@@-..%@@@@@@@@@+=@-@-@@:@@@@@@@@+   =@@.:-@@+              
         :+@@%*@@@#@@@@@#: %:    .:@@@@@@@@:   =@@@@@@@*              
         :@@+@@-:.*@*.@@+         +@@@@@@@@=   =@@@@@@@*      =%.     
          .+%**   #@: @%.        =@@@@@@@@@@ . =@@@@@@@#=%@@@@@:      
         .++=@@.  ##           :-@@@@@@@@@@@%*@@.      %@@@@@%:       
        .*=  =*.  ##          #-@@@@@@@@@@@%#*@@.      %@@@@+         
       :%-    :+: ##        :@#@@@@@@@@@@@@%@@@@.      %@@%.          
      :@:      #@%#*       =@@+@@@@@@@@@@@@%#@@@.      *#.            
     .@.       .%@@-..    %@@@@*@@+@:@@+-:*@@@@@.    =@*              
     *.          *#:@@@*-@@@@@@=@-@@=@@=@@@@@@@@..+@@@@*              
    :=             .--:.  .=@@#@-@@@*@@#@@@@@@+:-======.              
    +                         .#..::.@=...                            
                              *.     #.                               
                              +      #.                               
                                     +=                               
";

/// An sRGBA colour with premultiplied alpha.
#[derive(Clone, Copy, PartialEq, Eq, Structural, Debug, Hash)]
pub struct Color32 {
    pub r: u8,
    pub g: u8,
    pub b: u8,
    pub a: u8,
}

impl Color32 {
    /// An opaque colour.
    pub open spec fn rgb(r: u8, g: u8, b: u8) -> Color32 {
        Color32 { r, g, b, a: 255 }
    }

    /// An opaque colour (`Color32::from_rgb`).
    pub fn from_rgb(r: u8, g: u8, b: u8) -> (c: Color32)
        ensures
            c == Color32::rgb(r, g, b),
    {
        Color32 { r, g, b, a: 255 }
    }

    /// A colour from premultiplied components (`Color32::from_rgba_premultiplied`).
    pub fn from_rgba_premultiplied(r: u8, g: u8, b: u8, a: u8) -> (c: Color32)
        ensures
            c == (Color32 { r, g, b, a }),
    {
        Color32 { r, g, b, a }
    }

    /// No colour at all (`Color32::TRANSPARENT`).
    pub fn transparent() -> (c: Color32)
        ensures
            c == Color32::clear(),
    {
        Color32 { r: 0, g: 0, b: 0, a: 0 }
    }

    /// The transparent colour.
    pub open spec fn clear() -> Color32 {
        Color32 { r: 0, g: 0, b: 0, a: 0 }
    }
}

/// The font style of a piece of text.
#[derive(Clone, PartialEq, Eq, Debug)]
pub enum TextStyle {
    Small,
    Body,
    Monospace,
    Button,
    Heading,
    Name(String),
}

/// The colour of ordinary text.
pub open spec fn spec_text_color() -> Color32 {
    Color32::rgb(200, 200, 200)
}

/// The colour of the prompt.
pub open spec fn spec_prompt_text_color() -> Color32 {
    Color32::rgb(80, 250, 120)
}

/// The colour of selected text.
pub open spec fn spec_selection_color() -> Color32 {
    Color32 { r: 100, g: 100, b: 100, a: 100 }
}

/// The colour of the background.
pub open spec fn spec_background_color() -> Color32 {
    Color32::rgb(27, 27, 27)
}

/// The colour of ordinary text.
pub fn text_color() -> (c: Color32)
    ensures
        c == spec_text_color(),
{
    Color32::from_rgb(200, 200, 200)
}

/// The colour of the prompt.
pub fn prompt_text_color() -> (c: Color32)
    ensures
        c == spec_prompt_text_color(),
{
    Color32::from_rgb(80, 250, 120)
}

/// The colour of selected text.
pub fn selection_color() -> (c: Color32)
    ensures
        c == spec_selection_color(),
{
    Color32::from_rgba_premultiplied(100, 100, 100, 100)
}

/// The colour of the background.
pub fn background_color() -> (c: Color32)
    ensures
        c == spec_background_color(),
{
    Color32::from_rgb(27, 27, 27)
}

/// The eight ANSI colours (`bright`: their bright variants), by number 0 to 7.
pub open spec fn ansi_color(n: nat, bright: bool) -> Color32 {
    if !bright {
        if n == 0 {
            Color32::rgb(0, 0, 0)
        } else if n == 1 {
            Color32::rgb(204, 36, 29)
        } else if n == 2 {
            Color32::rgb(152, 151, 26)
        } else if n == 3 {
            Color32::rgb(215, 153, 33)
        } else if n == 4 {
            Color32::rgb(69, 133, 136)
        } else if n == 5 {
            Color32::rgb(177, 98, 134)
        } else if n == 6 {
            Color32::rgb(104, 157, 106)
        } else {
            Color32::rgb(235, 219, 178)
        }
    } else {
        if n == 0 {
            Color32::rgb(146, 131, 116)
        } else if n == 1 {
            Color32::rgb(251, 73, 52)
        } else if n == 2 {
            Color32::rgb(184, 187, 38)
        } else if n == 3 {
            Color32::rgb(250, 189, 47)
        } else if n == 4 {
            Color32::rgb(131, 165, 152)
        } else if n == 5 {
            Color32::rgb(211, 134, 155)
        } else if n == 6 {
            Color32::rgb(142, 192, 124)
        } else {
            Color32::rgb(253, 244, 193)
        }
    }
}

/// The ANSI colour numbered `n` (0 to 7), or its bright variant.
pub fn ansi_palette(n: u8, bright: bool) -> (c: Color32)
    requires
        n < 8,
    ensures
        c == ansi_color(n as nat, bright),
{
    if !bright {
        if n == 0 {
            Color32::from_rgb(0, 0, 0)
        } else if n == 1 {
            Color32::from_rgb(204, 36, 29)
        } else if n == 2 {
            Color32::from_rgb(152, 151, 26)
        } else if n == 3 {
            Color32::from_rgb(215, 153, 33)
        } else if n == 4 {
            Color32::from_rgb(69, 133, 136)
        } else if n == 5 {
            Color32::from_rgb(177, 98, 134)
        } else if n == 6 {
            Color32::from_rgb(104, 157, 106)
        } else {
            Color32::from_rgb(235, 219, 178)
        }
    } else {
        if n == 0 {
            Color32::from_rgb(146, 131, 116)
        } else if n == 1 {
            Color32::from_rgb(251, 73, 52)
        } else if n == 2 {
            Color32::from_rgb(184, 187, 38)
        } else if n == 3 {
            Color32::from_rgb(250, 189, 47)
        } else if n == 4 {
            Color32::from_rgb(131, 165, 152)
        } else if n == 5 {
            Color32::from_rgb(211, 134, 155)
        } else if n == 6 {
            Color32::from_rgb(142, 192, 124)
        } else {
            Color32::from_rgb(253, 244, 193)
        }
    }
}

/// How a run of text is drawn: its colour and background, italics, and the
/// colour of its underline and strikethrough strokes (`None`: no stroke).
#[derive(Clone, Copy, PartialEq, Eq, Structural, Debug)]
pub struct TextFormat {
    pub color: Color32,
    pub background: Color32,
    pub italics: bool,
    pub underline: Option<Color32>,
    pub strikethrough: Option<Color32>,
}

/// The value of a decimal digit character.
pub open spec fn digit_value(c: char) -> nat {
    (c as u32 - '0' as u32) as nat
}

/// Whether `c` is a decimal digit.
pub open spec fn is_digit(c: char) -> bool {
    '0' <= c && c <= '9'
}

/// The number that a string of digits denotes.
pub open spec fn digits_value(s: Seq<char>) -> nat
    decreases s.len(),
{
    if s.len() == 0 {
        0
    } else {
        digits_value(s.drop_last()) * 10 + digit_value(s.last())
    }
}

/// The number that an escape code names: the code must be one to three
/// digits without a leading zero (or the single digit `0`).
pub open spec fn code_number(code: Seq<char>) -> Option<nat> {
    if 1 <= code.len() <= 3 && (forall|i: int| 0 <= i < code.len() ==> is_digit(#[trigger] code[i]))
        && (code.len() == 1 || code[0] != '0') {
        Some(digits_value(code))
    } else {
        None
    }
}

/// What an SGR code does to a text format.
pub open spec fn code_effect(code: Seq<char>, f: TextFormat, default_text: Color32, default_background: Color32) -> TextFormat {
    match code_number(code) {
        Some(n) => if n == 0 {
            TextFormat { color: default_text, background: default_background, italics: false, underline: None, strikethrough: None }
        } else if n == 3 {
            TextFormat { italics: true, ..f }
        } else if n == 4 {
            TextFormat { underline: Some(f.color), ..f }
        } else if n == 9 {
            TextFormat { strikethrough: Some(f.color), ..f }
        } else if n == 23 {
            TextFormat { italics: false, ..f }
        } else if n == 24 {
            TextFormat { underline: None, ..f }
        } else if n == 29 {
            TextFormat { strikethrough: None, ..f }
        } else if 30 <= n <= 37 {
            TextFormat { color: ansi_color((n - 30) as nat, false), ..f }
        } else if n == 39 {
            TextFormat { color: default_text, ..f }
        } else if 40 <= n <= 47 {
            TextFormat { background: ansi_color((n - 40) as nat, false), ..f }
        } else if n == 49 {
            TextFormat { background: default_background, ..f }
        } else if 90 <= n <= 97 {
            TextFormat { color: ansi_color((n - 90) as nat, true), ..f }
        } else if 100 <= n <= 107 {
            TextFormat { background: ansi_color((n - 100) as nat, true), ..f }
        } else {
            f
        },
        None => f,
    }
}

/// The number an escape code names (see `code_number`).
fn parse_code(code: &Vec<char>) -> (r: Option<u32>)
    ensures
        match r {
            Some(n) => code_number(code@) == Some(n as nat),
            None => code_number(code@) is None,
        },
{
    let n = code.len();
    if n < 1 || n > 3 {
        return None;
    }
    if n > 1 && code[0] == '0' {
        return None;
    }
    let mut value: u32 = 0;
    let mut i: usize = 0;
    assert(code@.take(0) =~= Seq::<char>::empty());
    while i < n
        invariant
            i <= n,
            n == code.len(),
            1 <= n <= 3,
            forall|k: int| 0 <= k < i ==> is_digit(#[trigger] code@[k]),
            value == digits_value(code@.take(i as int)),
            value < 1000,
            i == 0 ==> value == 0,
            i == 1 ==> value < 10,
            i == 2 ==> value < 100,
        decreases n - i,
    {
        let c = code[i];
        if !('0' <= c && c <= '9') {
            return None;
        }
        let d: u32 = (c as u32) - ('0' as u32);
        proof {
            assert(code@.take(i + 1).drop_last() =~= code@.take(i as int));
        }
        value = value * 10 + d;
        i += 1;
    }
    assert(code@.take(n as int) =~= code@);
    Some(value)
}

/// Applies one SGR code to a text format (unknown codes leave it unchanged).
pub fn apply_ansi_code(
    code_string: &str,
    text_format: &mut TextFormat,
    default_text_color: Color32,
    default_background_color: Color32,
)
    ensures
        *final(text_format) == code_effect(
            code_string@,
            *old(text_format),
            default_text_color,
            default_background_color,
        ),
{
    let code = chars_of(code_string);
    apply_code_text(&code, text_format, default_text_color, default_background_color);
}

fn apply_code_text(
    code: &Vec<char>,
    text_format: &mut TextFormat,
    default_text_color: Color32,
    default_background_color: Color32,
)
    ensures
        *final(text_format) == code_effect(
            code@,
            *old(text_format),
            default_text_color,
            default_background_color,
        ),
{
    match parse_code(code) {
        Some(n) => {
            if n == 0 {
                text_format.color = default_text_color;
                text_format.background = default_background_color;
                text_format.italics = false;
                text_format.underline = None;
                text_format.strikethrough = None;
            } else if n == 3 {
                text_format.italics = true;
            } else if n == 4 {
                text_format.underline = Some(text_format.color);
            } else if n == 9 {
                text_format.strikethrough = Some(text_format.color);
            } else if n == 23 {
                text_format.italics = false;
            } else if n == 24 {
                text_format.underline = None;
            } else if n == 29 {
                text_format.strikethrough = None;
            } else if 30 <= n && n <= 37 {
                text_format.color = ansi_palette((n - 30) as u8, false);
            } else if n == 39 {
                text_format.color = default_text_color;
            } else if 40 <= n && n <= 47 {
                text_format.background = ansi_palette((n - 40) as u8, false);
            } else if n == 49 {
                text_format.background = default_background_color;
            } else if 90 <= n && n <= 97 {
                text_format.color = ansi_palette((n - 90) as u8, true);
            } else if 100 <= n && n <= 107 {
                text_format.background = ansi_palette((n - 100) as u8, true);
            }
        },
        None => {},
    }
}


/// The first position at or after `i` where an escape sequence (`ESC [`) starts.
pub open spec fn find_escape_from(s: Seq<char>, i: int) -> Option<int>
    decreases s.len() - i,
{
    if i < 0 || i + 1 >= s.len() {
        None
    } else if s[i] == '\x1b' && s[i + 1] == '[' {
        Some(i)
    } else {
        find_escape_from(s, i + 1)
    }
}

/// The first position at or after `i` that holds `c`.
pub open spec fn find_char_from(s: Seq<char>, c: char, i: int) -> Option<int>
    decreases s.len() - i,
{
    if i < 0 || i >= s.len() {
        None
    } else if s[i] == c {
        Some(i)
    } else {
        find_char_from(s, c, i + 1)
    }
}

/// The format after applying the codes in turn.
pub open spec fn apply_codes(codes: Seq<Seq<char>>, f: TextFormat, default_text: Color32, default_background: Color32) -> TextFormat
    decreases codes.len(),
{
    if codes.len() == 0 {
        f
    } else {
        code_effect(codes.last(), apply_codes(codes.drop_last(), f, default_text, default_background), default_text, default_background)
    }
}

/// The format a line starts in: the text colour on a transparent background.
pub open spec fn base_format(text: Color32) -> TextFormat {
    TextFormat { color: text, background: Color32::clear(), italics: false, underline: None, strikethrough: None }
}

/// The runs of a line from position `start` on, each with its format: the text
/// before an escape sequence in the current format, the codes between `ESC [`
/// and the next `m` (split at `;`) applied in turn; where no `m` follows, the
/// rest from `start` on is one more run.
pub open spec fn styled_from(s: Seq<char>, start: int, f: TextFormat, default_text: Color32) -> Seq<(Seq<char>, TextFormat)>
    decreases s.len() - start,
{
    if start < 0 || start >= s.len() {
        Seq::empty()
    } else {
        match find_escape_from(s, start) {
            None => seq![(s.subrange(start, s.len() as int), f)],
            Some(i) => {
                let pre: Seq<(Seq<char>, TextFormat)> = if i > start {
                    seq![(s.subrange(start, i), f)]
                } else {
                    Seq::empty()
                };
                match find_char_from(s, 'm', i + 2) {
                    None => pre.push((s.subrange(start, s.len() as int), f)),
                    Some(j) => if j + 1 > start && j < s.len() {
                        pre + styled_from(
                            s,
                            j + 1,
                            apply_codes(split_on(s.subrange(i + 2, j), ';'), f, default_text, Color32::clear()),
                            default_text,
                        )
                    } else {
                        pre
                    },
                }
            },
        }
    }
}

/// How a history line is drawn.
#[derive(Debug)]
pub enum LineLayout {
    /// The line as it is, in the terminal's text style.
    Plain(String),
    /// Runs of text with their formats.
    Styled(Vec<(String, TextFormat)>),
}

/// The text and format of each run.
pub open spec fn runs_view(runs: Seq<(String, TextFormat)>) -> Seq<(Seq<char>, TextFormat)> {
    runs.map_values(|r: (String, TextFormat)| (r.0@, r.1))
}

/// How `line` is drawn: plainly if it holds no escape sequence, else as styled runs.
pub open spec fn line_layout(line: Seq<char>, text: Color32) -> Option<Seq<(Seq<char>, TextFormat)>> {
    match find_escape_from(line, 0) {
        None => None,
        Some(_) => Some(styled_from(line, 0, base_format(text), text)),
    }
}

proof fn lemma_find_escape_range(s: Seq<char>, i: int)
    ensures
        find_escape_from(s, i) matches Some(k) ==> i <= k && k + 1 < s.len(),
    decreases s.len() - i,
{
    if !(i < 0 || i + 1 >= s.len()) {
        lemma_find_escape_range(s, i + 1);
    }
}

proof fn lemma_find_char_range(s: Seq<char>, c: char, i: int)
    ensures
        find_char_from(s, c, i) matches Some(k) ==> i <= k && k < s.len(),
    decreases s.len() - i,
{
    if !(i < 0 || i >= s.len()) {
        lemma_find_char_range(s, c, i + 1);
    }
}

fn find_escape(s: &Vec<char>, from: usize) -> (r: Option<usize>)
    ensures
        match r {
            Some(k) => find_escape_from(s@, from as int) == Some(k as int),
            None => find_escape_from(s@, from as int) is None,
        },
{
    let mut i = from;
    while i < s.len() && i + 1 < s.len()
        invariant
            from <= i,
            find_escape_from(s@, from as int) == find_escape_from(s@, i as int),
        decreases s.len() - i,
    {
        if s[i] == '\x1b' && s[i + 1] == '[' {
            return Some(i);
        }
        i += 1;
    }
    None
}

fn find_char(s: &Vec<char>, c: char, from: usize) -> (r: Option<usize>)
    ensures
        match r {
            Some(k) => find_char_from(s@, c, from as int) == Some(k as int),
            None => find_char_from(s@, c, from as int) is None,
        },
{
    let mut i = from;
    while i < s.len()
        invariant
            from <= i,
            find_char_from(s@, c, from as int) == find_char_from(s@, c, i as int),
        decreases s.len() - i,
    {
        if s[i] == c {
            return Some(i);
        }
        i += 1;
    }
    None
}

fn slice_text(s: &Vec<char>, from: usize, to: usize) -> (r: Vec<char>)
    requires
        from <= to <= s.len(),
    ensures
        r@ == s@.subrange(from as int, to as int),
{
    let mut r: Vec<char> = Vec::new();
    let mut k = from;
    while k < to
        invariant
            from <= k <= to,
            to <= s.len(),
            r@ =~= s@.subrange(from as int, k as int),
        decreases to - k,
    {
        r.push(s[k]);
        k += 1;
    }
    r
}

/// One step of the layout from `start`: the runs it yields, and where (and in
/// which format) the layout goes on.
fn styled_step(cs: &Vec<char>, start: usize, fmt: TextFormat, text_color: Color32) -> (r: (
    Vec<(String, TextFormat)>,
    Option<(usize, TextFormat)>,
))
    requires
        start < cs.len(),
    ensures
        styled_from(cs@, start as int, fmt, text_color) == runs_view(r.0@) + match r.1 {
            Some((n, f2)) => styled_from(cs@, n as int, f2, text_color),
            None => Seq::empty(),
        },
        r.1 matches Some((n, f2)) ==> start < n <= cs.len(),
{
    let mut runs: Vec<(String, TextFormat)> = Vec::new();
    match find_escape(cs, start) {
        None => {
            let piece = slice_text(cs, start, cs.len());
            runs.push((string_of(&piece), fmt));
            assert(runs_view(runs@) =~= styled_from(cs@, start as int, fmt, text_color));
            (runs, None)
        },
        Some(i) => {
            proof {
                lemma_find_escape_range(cs@, start as int);
            }
            if i > start {
                let piece = slice_text(cs, start, i);
                runs.push((string_of(&piece), fmt));
            }
            let ghost pre_seq: Seq<(Seq<char>, TextFormat)> = if i > start {
                seq![(cs@.subrange(start as int, i as int), fmt)]
            } else {
                Seq::empty()
            };
            assert(runs_view(runs@) =~= pre_seq);
            match find_char(cs, 'm', i + 2) {
                None => {
                    let piece = slice_text(cs, start, cs.len());
                    runs.push((string_of(&piece), fmt));
                    assert(runs_view(runs@) =~= styled_from(cs@, start as int, fmt, text_color));
                    (runs, None)
                },
                Some(j) => {
                    proof {
                        lemma_find_char_range(cs@, 'm', (i + 2) as int);
                    }
                    let inner = slice_text(cs, i + 2, j);
                    let codes = split_text(&inner, ';');
                    let mut next = fmt;
                    let mut k: usize = 0;
                    assert(texts(codes@).take(0) =~= Seq::<Seq<char>>::empty());
                    while k < codes.len()
                        invariant
                            k <= codes.len(),
                            next == apply_codes(texts(codes@).take(k as int), fmt, text_color, Color32::clear()),
                        decreases codes.len() - k,
                    {
                        apply_code_text(&codes[k], &mut next, text_color, Color32::transparent());
                        proof {
                            assert(texts(codes@).take(k + 1).drop_last() =~= texts(codes@).take(k as int));
                            assert(texts(codes@).take(k + 1).last() == codes@[k as int]@);
                        }
                        k += 1;
                    }
                    assert(texts(codes@).take(codes.len() as int) =~= texts(codes@));
                    (runs, Some((j + 1, next)))
                },
            }
        },
    }
}

/// Lays out a history line: plainly if it holds no escape sequence (`ESC [`),
/// else as runs of text, each in the format that the SGR codes before it set.
pub fn layout_line(line: &str, text_color: Color32) -> (r: LineLayout)
    ensures
        match r {
            LineLayout::Plain(s) => line_layout(line@, text_color) is None && s@ == line@,
            LineLayout::Styled(runs) => line_layout(line@, text_color) == Some(runs_view(runs@)),
        },
{
    let cs = chars_of(line);
    if find_escape(&cs, 0).is_none() {
        return LineLayout::Plain(string_of(&cs));
    }
    let mut runs: Vec<(String, TextFormat)> = Vec::new();
    let mut start: usize = 0;
    let mut fmt = TextFormat {
        color: text_color,
        background: Color32::transparent(),
        italics: false,
        underline: None,
        strikethrough: None,
    };
    let ghost whole = styled_from(cs@, 0, base_format(text_color), text_color);
    loop
        invariant_except_break
            start <= cs.len(),
            whole == runs_view(runs@) + styled_from(cs@, start as int, fmt, text_color),
        ensures
            whole == runs_view(runs@),
        decreases cs.len() - start,
    {
        if start >= cs.len() {
            assert(runs_view(runs@) + styled_from(cs@, start as int, fmt, text_color) =~= runs_view(runs@));
            break;
        }
        let (piece, next) = styled_step(&cs, start, fmt, text_color);
        let ghost before = runs_view(runs@);
        let mut piece = piece;
        let ghost pv = runs_view(piece@);
        runs.append(&mut piece);
        assert(runs_view(runs@) =~= before + pv);
        match next {
            Some((n, f2)) => {
                start = n;
                fmt = f2;
            },
            None => {
                break;
            },
        }
    }
    LineLayout::Styled(runs)
}

/// The code `0` resets a format to the defaults, whatever it was.
pub proof fn law_reset_code(f: TextFormat, default_text: Color32, default_background: Color32)
    ensures
        code_effect(seq!['0'], f, default_text, default_background) == (TextFormat {
            color: default_text,
            background: default_background,
            italics: false,
            underline: None,
            strikethrough: None,
        }),
{
    let z: Seq<char> = seq!['0'];
    assert(z.drop_last() =~= Seq::<char>::empty());
    assert(digits_value(Seq::<char>::empty()) == 0);
    assert(z.last() == '0');
    assert(digit_value('0') == 0);
    assert(digits_value(z) == 0);
    assert(is_digit(z[0]));
    assert(code_number(z) == Some(0nat));
}

proof fn lemma_two_digits(a: char, b: char)
    requires
        '1' <= a <= '9',
        '0' <= b <= '9',
    ensures
        code_number(seq![a, b]) == Some(10 * digit_value(a) + digit_value(b)),
{
    let c: Seq<char> = seq![a, b];
    assert(c.drop_last() =~= seq![a]);
    assert(seq![a].drop_last() =~= Seq::<char>::empty());
    assert(digits_value(Seq::<char>::empty()) == 0);
    assert(digits_value(seq![a]) == digit_value(a));
    assert(digits_value(c) == 10 * digit_value(a) + digit_value(b));
    assert(is_digit(c[0]) && is_digit(c[1]));
}

proof fn lemma_one_digit(a: char)
    requires
        '0' <= a <= '9',
    ensures
        code_number(seq![a]) == Some(digit_value(a)),
{
    let c: Seq<char> = seq![a];
    assert(c.drop_last() =~= Seq::<char>::empty());
    assert(digits_value(Seq::<char>::empty()) == 0);
    assert(is_digit(c[0]));
}

/// `3d` (d from 0 to 7) sets the text colour to the d-th ANSI colour and
/// leaves the rest of the format as it was.
pub proof fn law_foreground_codes(d: char, f: TextFormat, dt: Color32, db: Color32)
    requires
        '0' <= d <= '7',
    ensures
        code_effect(seq!['3', d], f, dt, db) == (TextFormat {
            color: ansi_color(digit_value(d), false),
            ..f
        }),
{
    lemma_two_digits('3', d);
}

/// `4d` (d from 0 to 7) sets the background to the d-th ANSI colour and
/// leaves the rest of the format as it was.
pub proof fn law_background_codes(d: char, f: TextFormat, dt: Color32, db: Color32)
    requires
        '0' <= d <= '7',
    ensures
        code_effect(seq!['4', d], f, dt, db) == (TextFormat {
            background: ansi_color(digit_value(d), false),
            ..f
        }),
{
    lemma_two_digits('4', d);
}

/// `9d` (d from 0 to 7) sets the text colour to the d-th bright ANSI colour.
pub proof fn law_bright_foreground_codes(d: char, f: TextFormat, dt: Color32, db: Color32)
    requires
        '0' <= d <= '7',
    ensures
        code_effect(seq!['9', d], f, dt, db) == (TextFormat {
            color: ansi_color(digit_value(d), true),
            ..f
        }),
{
    lemma_two_digits('9', d);
}

/// `10d` (d from 0 to 7) sets the background to the d-th bright ANSI colour.
pub proof fn law_bright_background_codes(d: char, f: TextFormat, dt: Color32, db: Color32)
    requires
        '0' <= d <= '7',
    ensures
        code_effect(seq!['1', '0', d], f, dt, db) == (TextFormat {
            background: ansi_color(digit_value(d), true),
            ..f
        }),
{
    let c: Seq<char> = seq!['1', '0', d];
    assert(c.drop_last() =~= seq!['1', '0']);
    assert(seq!['1', '0'].drop_last() =~= seq!['1']);
    assert(seq!['1'].drop_last() =~= Seq::<char>::empty());
    assert(digits_value(Seq::<char>::empty()) == 0);
    assert(digits_value(seq!['1']) == 1);
    assert(digits_value(seq!['1', '0']) == 10);
    assert(digits_value(c) == 100 + digit_value(d));
    assert(is_digit(c[0]) && is_digit(c[1]) && is_digit(c[2]));
}

/// `39` and `49` restore the default text colour and background; `3`, `4`
/// and `9` turn on italics, underline and strikethrough (the strokes in the
/// current text colour), and `23`, `24`, `29` turn them off.
pub proof fn law_style_codes(f: TextFormat, dt: Color32, db: Color32)
    ensures
        code_effect(seq!['3', '9'], f, dt, db) == (TextFormat { color: dt, ..f }),
        code_effect(seq!['4', '9'], f, dt, db) == (TextFormat { background: db, ..f }),
        code_effect(seq!['3'], f, dt, db) == (TextFormat { italics: true, ..f }),
        code_effect(seq!['4'], f, dt, db) == (TextFormat { underline: Some(f.color), ..f }),
        code_effect(seq!['9'], f, dt, db) == (TextFormat { strikethrough: Some(f.color), ..f }),
        code_effect(seq!['2', '3'], f, dt, db) == (TextFormat { italics: false, ..f }),
        code_effect(seq!['2', '4'], f, dt, db) == (TextFormat { underline: None, ..f }),
        code_effect(seq!['2', '9'], f, dt, db) == (TextFormat { strikethrough: None, ..f }),
{
    lemma_two_digits('3', '9');
    lemma_two_digits('4', '9');
    lemma_two_digits('2', '3');
    lemma_two_digits('2', '4');
    lemma_two_digits('2', '9');
    lemma_one_digit('3');
    lemma_one_digit('4');
    lemma_one_digit('9');
}

/// The ANSI palette: black, red, green, yellow, blue, magenta, cyan, white,
/// and their bright variants.
pub proof fn law_palette()
    ensures
        ansi_color(0, false) == Color32::rgb(0, 0, 0),
        ansi_color(1, false) == Color32::rgb(204, 36, 29),
        ansi_color(2, false) == Color32::rgb(152, 151, 26),
        ansi_color(3, false) == Color32::rgb(215, 153, 33),
        ansi_color(4, false) == Color32::rgb(69, 133, 136),
        ansi_color(5, false) == Color32::rgb(177, 98, 134),
        ansi_color(6, false) == Color32::rgb(104, 157, 106),
        ansi_color(7, false) == Color32::rgb(235, 219, 178),
        ansi_color(0, true) == Color32::rgb(146, 131, 116),
        ansi_color(1, true) == Color32::rgb(251, 73, 52),
        ansi_color(2, true) == Color32::rgb(184, 187, 38),
        ansi_color(3, true) == Color32::rgb(250, 189, 47),
        ansi_color(4, true) == Color32::rgb(131, 165, 152),
        ansi_color(5, true) == Color32::rgb(211, 134, 155),
        ansi_color(6, true) == Color32::rgb(142, 192, 124),
        ansi_color(7, true) == Color32::rgb(253, 244, 193),
{
}

} // verus!
