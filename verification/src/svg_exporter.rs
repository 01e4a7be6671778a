//! SVG serialisation: valid, compact `<svg>` markup from traced regions.
use vstd::prelude::*;
use crate::optimizer::Point;
use crate::vectorizer::{PathLoop, Region};
use crate::xbrz_engine::Argb;

verus! {

// ---------------------------------------------------------------------------
// Text of numbers
// ---------------------------------------------------------------------------

/// The decimal digit `d` (0..10).
pub open spec fn digit_char(d: int) -> char {
    if d == 0 {
        '0'
    } else if d == 1 {
        '1'
    } else if d == 2 {
        '2'
    } else if d == 3 {
        '3'
    } else if d == 4 {
        '4'
    } else if d == 5 {
        '5'
    } else if d == 6 {
        '6'
    } else if d == 7 {
        '7'
    } else if d == 8 {
        '8'
    } else {
        '9'
    }
}

/// The lowercase hexadecimal digit `d` (0..16).
pub open spec fn hex_char(d: int) -> char {
    if d < 10 {
        digit_char(d)
    } else if d == 10 {
        'a'
    } else if d == 11 {
        'b'
    } else if d == 12 {
        'c'
    } else if d == 13 {
        'd'
    } else if d == 14 {
        'e'
    } else {
        'f'
    }
}

/// Decimal text of a natural number, without leading zeros.
pub open spec fn dec_text(n: nat) -> Seq<char>
    decreases n,
{
    if n < 10 {
        seq![digit_char(n as int)]
    } else {
        dec_text(n / 10) + seq![digit_char((n % 10) as int)]
    }
}

/// Decimal text of an integer: a minus sign for negative numbers.
pub open spec fn int_text(n: int) -> Seq<char> {
    if n < 0 {
        seq!['-'] + dec_text((-n) as nat)
    } else {
        dec_text(n as nat)
    }
}

/// Two lowercase hexadecimal digits of a byte.
pub open spec fn hex2_text(v: int) -> Seq<char> {
    seq![hex_char(v / 16), hex_char(v % 16)]
}

/// `#rrggbb`.
pub open spec fn hex_color_text(c: Argb) -> Seq<char> {
    seq!['#'] + hex2_text(c.red() as int) + hex2_text(c.green() as int) + hex2_text(
        c.blue() as int,
    )
}

/// The shortest decimal text that reads back as the double nearest to
/// `alpha / 255` (`0` for zero), for alpha below 255.
pub open spec fn opacity_text(alpha: u32) -> Seq<char> {
    match alpha {
        0 => "0"@,
        1 => "0.00392156862745098"@,
        2 => "0.00784313725490196"@,
        3 => "0.011764705882352941"@,
        4 => "0.01568627450980392"@,
        5 => "0.0196078431372549"@,
        6 => "0.023529411764705882"@,
        7 => "0.027450980392156862"@,
        8 => "0.03137254901960784"@,
        9 => "0.03529411764705882"@,
        10 => "0.0392156862745098"@,
        11 => "0.043137254901960784"@,
        12 => "0.047058823529411764"@,
        13 => "0.050980392156862744"@,
        14 => "0.054901960784313725"@,
        15 => "0.058823529411764705"@,
        16 => "0.06274509803921569"@,
        17 => "0.06666666666666667"@,
        18 => "0.07058823529411765"@,
        19 => "0.07450980392156863"@,
        20 => "0.0784313725490196"@,
        21 => "0.08235294117647059"@,
        22 => "0.08627450980392157"@,
        23 => "0.09019607843137255"@,
        24 => "0.09411764705882353"@,
        25 => "0.09803921568627451"@,
        26 => "0.10196078431372549"@,
        27 => "0.10588235294117647"@,
        28 => "0.10980392156862745"@,
        29 => "0.11372549019607843"@,
        30 => "0.11764705882352941"@,
        31 => "0.12156862745098039"@,
        32 => "0.12549019607843137"@,
        33 => "0.12941176470588237"@,
        34 => "0.13333333333333333"@,
        35 => "0.13725490196078433"@,
        36 => "0.1411764705882353"@,
        37 => "0.1450980392156863"@,
        38 => "0.14901960784313725"@,
        39 => "0.15294117647058825"@,
        40 => "0.1568627450980392"@,
        41 => "0.1607843137254902"@,
        42 => "0.16470588235294117"@,
        43 => "0.16862745098039217"@,
        44 => "0.17254901960784313"@,
        45 => "0.17647058823529413"@,
        46 => "0.1803921568627451"@,
        47 => "0.1843137254901961"@,
        48 => "0.18823529411764706"@,
        49 => "0.19215686274509805"@,
        50 => "0.19607843137254902"@,
        51 => "0.2"@,
        52 => "0.20392156862745098"@,
        53 => "0.20784313725490197"@,
        54 => "0.21176470588235294"@,
        55 => "0.21568627450980393"@,
        56 => "0.2196078431372549"@,
        57 => "0.2235294117647059"@,
        58 => "0.22745098039215686"@,
        59 => "0.23137254901960785"@,
        60 => "0.23529411764705882"@,
        61 => "0.23921568627450981"@,
        62 => "0.24313725490196078"@,
        63 => "0.24705882352941178"@,
        64 => "0.25098039215686274"@,
        65 => "0.2549019607843137"@,
        66 => "0.25882352941176473"@,
        67 => "0.2627450980392157"@,
        68 => "0.26666666666666666"@,
        69 => "0.27058823529411763"@,
        70 => "0.27450980392156865"@,
        71 => "0.2784313725490196"@,
        72 => "0.2823529411764706"@,
        73 => "0.28627450980392155"@,
        74 => "0.2901960784313726"@,
        75 => "0.29411764705882354"@,
        76 => "0.2980392156862745"@,
        77 => "0.30196078431372547"@,
        78 => "0.3058823529411765"@,
        79 => "0.30980392156862746"@,
        80 => "0.3137254901960784"@,
        81 => "0.3176470588235294"@,
        82 => "0.3215686274509804"@,
        83 => "0.3254901960784314"@,
        84 => "0.32941176470588235"@,
        85 => "0.3333333333333333"@,
        86 => "0.33725490196078434"@,
        87 => "0.3411764705882353"@,
        88 => "0.34509803921568627"@,
        89 => "0.34901960784313724"@,
        90 => "0.35294117647058826"@,
        91 => "0.3568627450980392"@,
        92 => "0.3607843137254902"@,
        93 => "0.36470588235294116"@,
        94 => "0.3686274509803922"@,
        95 => "0.37254901960784315"@,
        96 => "0.3764705882352941"@,
        97 => "0.3803921568627451"@,
        98 => "0.3843137254901961"@,
        99 => "0.38823529411764707"@,
        100 => "0.39215686274509803"@,
        101 => "0.396078431372549"@,
        102 => "0.4"@,
        103 => "0.403921568627451"@,
        104 => "0.40784313725490196"@,
        105 => "0.4117647058823529"@,
        106 => "0.41568627450980394"@,
        107 => "0.4196078431372549"@,
        108 => "0.4235294117647059"@,
        109 => "0.42745098039215684"@,
        110 => "0.43137254901960786"@,
        111 => "0.43529411764705883"@,
        112 => "0.4392156862745098"@,
        113 => "0.44313725490196076"@,
        114 => "0.4470588235294118"@,
        115 => "0.45098039215686275"@,
        116 => "0.4549019607843137"@,
        117 => "0.4588235294117647"@,
        118 => "0.4627450980392157"@,
        119 => "0.4666666666666667"@,
        120 => "0.47058823529411764"@,
        121 => "0.4745098039215686"@,
        122 => "0.47843137254901963"@,
        123 => "0.4823529411764706"@,
        124 => "0.48627450980392156"@,
        125 => "0.49019607843137253"@,
        126 => "0.49411764705882355"@,
        127 => "0.4980392156862745"@,
        128 => "0.5019607843137255"@,
        129 => "0.5058823529411764"@,
        130 => "0.5098039215686274"@,
        131 => "0.5137254901960784"@,
        132 => "0.5176470588235295"@,
        133 => "0.5215686274509804"@,
        134 => "0.5254901960784314"@,
        135 => "0.5294117647058824"@,
        136 => "0.5333333333333333"@,
        137 => "0.5372549019607843"@,
        138 => "0.5411764705882353"@,
        139 => "0.5450980392156862"@,
        140 => "0.5490196078431373"@,
        141 => "0.5529411764705883"@,
        142 => "0.5568627450980392"@,
        143 => "0.5607843137254902"@,
        144 => "0.5647058823529412"@,
        145 => "0.5686274509803921"@,
        146 => "0.5725490196078431"@,
        147 => "0.5764705882352941"@,
        148 => "0.5803921568627451"@,
        149 => "0.5843137254901961"@,
        150 => "0.5882352941176471"@,
        151 => "0.592156862745098"@,
        152 => "0.596078431372549"@,
        153 => "0.6"@,
        154 => "0.6039215686274509"@,
        155 => "0.6078431372549019"@,
        156 => "0.611764705882353"@,
        157 => "0.615686274509804"@,
        158 => "0.6196078431372549"@,
        159 => "0.6235294117647059"@,
        160 => "0.6274509803921569"@,
        161 => "0.6313725490196078"@,
        162 => "0.6352941176470588"@,
        163 => "0.6392156862745098"@,
        164 => "0.6431372549019608"@,
        165 => "0.6470588235294118"@,
        166 => "0.6509803921568628"@,
        167 => "0.6549019607843137"@,
        168 => "0.6588235294117647"@,
        169 => "0.6627450980392157"@,
        170 => "0.6666666666666666"@,
        171 => "0.6705882352941176"@,
        172 => "0.6745098039215687"@,
        173 => "0.6784313725490196"@,
        174 => "0.6823529411764706"@,
        175 => "0.6862745098039216"@,
        176 => "0.6901960784313725"@,
        177 => "0.6941176470588235"@,
        178 => "0.6980392156862745"@,
        179 => "0.7019607843137254"@,
        180 => "0.7058823529411765"@,
        181 => "0.7098039215686275"@,
        182 => "0.7137254901960784"@,
        183 => "0.7176470588235294"@,
        184 => "0.7215686274509804"@,
        185 => "0.7254901960784313"@,
        186 => "0.7294117647058823"@,
        187 => "0.7333333333333333"@,
        188 => "0.7372549019607844"@,
        189 => "0.7411764705882353"@,
        190 => "0.7450980392156863"@,
        191 => "0.7490196078431373"@,
        192 => "0.7529411764705882"@,
        193 => "0.7568627450980392"@,
        194 => "0.7607843137254902"@,
        195 => "0.7647058823529411"@,
        196 => "0.7686274509803922"@,
        197 => "0.7725490196078432"@,
        198 => "0.7764705882352941"@,
        199 => "0.7803921568627451"@,
        200 => "0.7843137254901961"@,
        201 => "0.788235294117647"@,
        202 => "0.792156862745098"@,
        203 => "0.796078431372549"@,
        204 => "0.8"@,
        205 => "0.803921568627451"@,
        206 => "0.807843137254902"@,
        207 => "0.8117647058823529"@,
        208 => "0.8156862745098039"@,
        209 => "0.8196078431372549"@,
        210 => "0.8235294117647058"@,
        211 => "0.8274509803921568"@,
        212 => "0.8313725490196079"@,
        213 => "0.8352941176470589"@,
        214 => "0.8392156862745098"@,
        215 => "0.8431372549019608"@,
        216 => "0.8470588235294118"@,
        217 => "0.8509803921568627"@,
        218 => "0.8549019607843137"@,
        219 => "0.8588235294117647"@,
        220 => "0.8627450980392157"@,
        221 => "0.8666666666666667"@,
        222 => "0.8705882352941177"@,
        223 => "0.8745098039215686"@,
        224 => "0.8784313725490196"@,
        225 => "0.8823529411764706"@,
        226 => "0.8862745098039215"@,
        227 => "0.8901960784313725"@,
        228 => "0.8941176470588236"@,
        229 => "0.8980392156862745"@,
        230 => "0.9019607843137255"@,
        231 => "0.9058823529411765"@,
        232 => "0.9098039215686274"@,
        233 => "0.9137254901960784"@,
        234 => "0.9176470588235294"@,
        235 => "0.9215686274509803"@,
        236 => "0.9254901960784314"@,
        237 => "0.9294117647058824"@,
        238 => "0.9333333333333333"@,
        239 => "0.9372549019607843"@,
        240 => "0.9411764705882353"@,
        241 => "0.9450980392156862"@,
        242 => "0.9490196078431372"@,
        243 => "0.9529411764705882"@,
        244 => "0.9568627450980393"@,
        245 => "0.9607843137254902"@,
        246 => "0.9647058823529412"@,
        247 => "0.9686274509803922"@,
        248 => "0.9725490196078431"@,
        249 => "0.9764705882352941"@,
        250 => "0.9803921568627451"@,
        251 => "0.984313725490196"@,
        252 => "0.9882352941176471"@,
        253 => "0.9921568627450981"@,
        _ => "0.996078431372549"@,
    }
}

fn digit_str(d: u64) -> (s: &'static str)
    requires
        d < 10,
    ensures
        s@ == seq![digit_char(d as int)],
{
    proof {
        reveal_strlit("0");
        reveal_strlit("1");
        reveal_strlit("2");
        reveal_strlit("3");
        reveal_strlit("4");
        reveal_strlit("5");
        reveal_strlit("6");
        reveal_strlit("7");
        reveal_strlit("8");
        reveal_strlit("9");
    }
    match d {
        0 => "0",
        1 => "1",
        2 => "2",
        3 => "3",
        4 => "4",
        5 => "5",
        6 => "6",
        7 => "7",
        8 => "8",
        _ => "9",
    }
}

fn hex_str(d: u32) -> (s: &'static str)
    requires
        d < 16,
    ensures
        s@ == seq![hex_char(d as int)],
{
    if d < 10 {
        digit_str(d as u64)
    } else {
        proof {
            reveal_strlit("a");
            reveal_strlit("b");
            reveal_strlit("c");
            reveal_strlit("d");
            reveal_strlit("e");
            reveal_strlit("f");
        }
        match d {
            10 => "a",
            11 => "b",
            12 => "c",
            13 => "d",
            14 => "e",
            _ => "f",
        }
    }
}

/// Append the decimal text of `v`.
pub fn push_dec(s: &mut String, v: u64)
    ensures
        final(s)@ == old(s)@ + dec_text(v as nat),
    decreases v,
{
    if v >= 10 {
        push_dec(s, v / 10);
    }
    s.append(digit_str(v % 10));
    proof {
        if v < 10 {
            assert(v % 10 == v);
        }
    }
}

/// Append the decimal text of `n`, with a minus sign when negative.
pub fn push_i32(s: &mut String, n: i32)
    ensures
        final(s)@ == old(s)@ + int_text(n as int),
{
    if n < 0 {
        proof {
            reveal_strlit("-");
        }
        s.append("-");
        let v: u64 = (-(n as i64)) as u64;
        push_dec(s, v);
    } else {
        push_dec(s, n as u64);
    }
}

/// `#rrggbb` for a colour.
pub fn hex_color(color: Argb) -> (s: String)
    ensures
        s@ == hex_color_text(color),
{
    proof {
        reveal_strlit("#");
    }
    let mut s = String::new();
    s.append("#");
    let (r, g, b) = (color.r(), color.g(), color.b());
    s.append(hex_str(r / 16));
    s.append(hex_str(r % 16));
    s.append(hex_str(g / 16));
    s.append(hex_str(g % 16));
    s.append(hex_str(b / 16));
    s.append(hex_str(b % 16));
    s
}

/// The text of `alpha / 255` as an SVG opacity, for alpha below 255.
pub fn opacity_str(alpha: u32) -> (s: &'static str)
    requires
        alpha < 255,
    ensures
        s@ == opacity_text(alpha),
{
    match alpha {
        0 => "0",
        1 => "0.00392156862745098",
        2 => "0.00784313725490196",
        3 => "0.011764705882352941",
        4 => "0.01568627450980392",
        5 => "0.0196078431372549",
        6 => "0.023529411764705882",
        7 => "0.027450980392156862",
        8 => "0.03137254901960784",
        9 => "0.03529411764705882",
        10 => "0.0392156862745098",
        11 => "0.043137254901960784",
        12 => "0.047058823529411764",
        13 => "0.050980392156862744",
        14 => "0.054901960784313725",
        15 => "0.058823529411764705",
        16 => "0.06274509803921569",
        17 => "0.06666666666666667",
        18 => "0.07058823529411765",
        19 => "0.07450980392156863",
        20 => "0.0784313725490196",
        21 => "0.08235294117647059",
        22 => "0.08627450980392157",
        23 => "0.09019607843137255",
        24 => "0.09411764705882353",
        25 => "0.09803921568627451",
        26 => "0.10196078431372549",
        27 => "0.10588235294117647",
        28 => "0.10980392156862745",
        29 => "0.11372549019607843",
        30 => "0.11764705882352941",
        31 => "0.12156862745098039",
        32 => "0.12549019607843137",
        33 => "0.12941176470588237",
        34 => "0.13333333333333333",
        35 => "0.13725490196078433",
        36 => "0.1411764705882353",
        37 => "0.1450980392156863",
        38 => "0.14901960784313725",
        39 => "0.15294117647058825",
        40 => "0.1568627450980392",
        41 => "0.1607843137254902",
        42 => "0.16470588235294117",
        43 => "0.16862745098039217",
        44 => "0.17254901960784313",
        45 => "0.17647058823529413",
        46 => "0.1803921568627451",
        47 => "0.1843137254901961",
        48 => "0.18823529411764706",
        49 => "0.19215686274509805",
        50 => "0.19607843137254902",
        51 => "0.2",
        52 => "0.20392156862745098",
        53 => "0.20784313725490197",
        54 => "0.21176470588235294",
        55 => "0.21568627450980393",
        56 => "0.2196078431372549",
        57 => "0.2235294117647059",
        58 => "0.22745098039215686",
        59 => "0.23137254901960785",
        60 => "0.23529411764705882",
        61 => "0.23921568627450981",
        62 => "0.24313725490196078",
        63 => "0.24705882352941178",
        64 => "0.25098039215686274",
        65 => "0.2549019607843137",
        66 => "0.25882352941176473",
        67 => "0.2627450980392157",
        68 => "0.26666666666666666",
        69 => "0.27058823529411763",
        70 => "0.27450980392156865",
        71 => "0.2784313725490196",
        72 => "0.2823529411764706",
        73 => "0.28627450980392155",
        74 => "0.2901960784313726",
        75 => "0.29411764705882354",
        76 => "0.2980392156862745",
        77 => "0.30196078431372547",
        78 => "0.3058823529411765",
        79 => "0.30980392156862746",
        80 => "0.3137254901960784",
        81 => "0.3176470588235294",
        82 => "0.3215686274509804",
        83 => "0.3254901960784314",
        84 => "0.32941176470588235",
        85 => "0.3333333333333333",
        86 => "0.33725490196078434",
        87 => "0.3411764705882353",
        88 => "0.34509803921568627",
        89 => "0.34901960784313724",
        90 => "0.35294117647058826",
        91 => "0.3568627450980392",
        92 => "0.3607843137254902",
        93 => "0.36470588235294116",
        94 => "0.3686274509803922",
        95 => "0.37254901960784315",
        96 => "0.3764705882352941",
        97 => "0.3803921568627451",
        98 => "0.3843137254901961",
        99 => "0.38823529411764707",
        100 => "0.39215686274509803",
        101 => "0.396078431372549",
        102 => "0.4",
        103 => "0.403921568627451",
        104 => "0.40784313725490196",
        105 => "0.4117647058823529",
        106 => "0.41568627450980394",
        107 => "0.4196078431372549",
        108 => "0.4235294117647059",
        109 => "0.42745098039215684",
        110 => "0.43137254901960786",
        111 => "0.43529411764705883",
        112 => "0.4392156862745098",
        113 => "0.44313725490196076",
        114 => "0.4470588235294118",
        115 => "0.45098039215686275",
        116 => "0.4549019607843137",
        117 => "0.4588235294117647",
        118 => "0.4627450980392157",
        119 => "0.4666666666666667",
        120 => "0.47058823529411764",
        121 => "0.4745098039215686",
        122 => "0.47843137254901963",
        123 => "0.4823529411764706",
        124 => "0.48627450980392156",
        125 => "0.49019607843137253",
        126 => "0.49411764705882355",
        127 => "0.4980392156862745",
        128 => "0.5019607843137255",
        129 => "0.5058823529411764",
        130 => "0.5098039215686274",
        131 => "0.5137254901960784",
        132 => "0.5176470588235295",
        133 => "0.5215686274509804",
        134 => "0.5254901960784314",
        135 => "0.5294117647058824",
        136 => "0.5333333333333333",
        137 => "0.5372549019607843",
        138 => "0.5411764705882353",
        139 => "0.5450980392156862",
        140 => "0.5490196078431373",
        141 => "0.5529411764705883",
        142 => "0.5568627450980392",
        143 => "0.5607843137254902",
        144 => "0.5647058823529412",
        145 => "0.5686274509803921",
        146 => "0.5725490196078431",
        147 => "0.5764705882352941",
        148 => "0.5803921568627451",
        149 => "0.5843137254901961",
        150 => "0.5882352941176471",
        151 => "0.592156862745098",
        152 => "0.596078431372549",
        153 => "0.6",
        154 => "0.6039215686274509",
        155 => "0.6078431372549019",
        156 => "0.611764705882353",
        157 => "0.615686274509804",
        158 => "0.6196078431372549",
        159 => "0.6235294117647059",
        160 => "0.6274509803921569",
        161 => "0.6313725490196078",
        162 => "0.6352941176470588",
        163 => "0.6392156862745098",
        164 => "0.6431372549019608",
        165 => "0.6470588235294118",
        166 => "0.6509803921568628",
        167 => "0.6549019607843137",
        168 => "0.6588235294117647",
        169 => "0.6627450980392157",
        170 => "0.6666666666666666",
        171 => "0.6705882352941176",
        172 => "0.6745098039215687",
        173 => "0.6784313725490196",
        174 => "0.6823529411764706",
        175 => "0.6862745098039216",
        176 => "0.6901960784313725",
        177 => "0.6941176470588235",
        178 => "0.6980392156862745",
        179 => "0.7019607843137254",
        180 => "0.7058823529411765",
        181 => "0.7098039215686275",
        182 => "0.7137254901960784",
        183 => "0.7176470588235294",
        184 => "0.7215686274509804",
        185 => "0.7254901960784313",
        186 => "0.7294117647058823",
        187 => "0.7333333333333333",
        188 => "0.7372549019607844",
        189 => "0.7411764705882353",
        190 => "0.7450980392156863",
        191 => "0.7490196078431373",
        192 => "0.7529411764705882",
        193 => "0.7568627450980392",
        194 => "0.7607843137254902",
        195 => "0.7647058823529411",
        196 => "0.7686274509803922",
        197 => "0.7725490196078432",
        198 => "0.7764705882352941",
        199 => "0.7803921568627451",
        200 => "0.7843137254901961",
        201 => "0.788235294117647",
        202 => "0.792156862745098",
        203 => "0.796078431372549",
        204 => "0.8",
        205 => "0.803921568627451",
        206 => "0.807843137254902",
        207 => "0.8117647058823529",
        208 => "0.8156862745098039",
        209 => "0.8196078431372549",
        210 => "0.8235294117647058",
        211 => "0.8274509803921568",
        212 => "0.8313725490196079",
        213 => "0.8352941176470589",
        214 => "0.8392156862745098",
        215 => "0.8431372549019608",
        216 => "0.8470588235294118",
        217 => "0.8509803921568627",
        218 => "0.8549019607843137",
        219 => "0.8588235294117647",
        220 => "0.8627450980392157",
        221 => "0.8666666666666667",
        222 => "0.8705882352941177",
        223 => "0.8745098039215686",
        224 => "0.8784313725490196",
        225 => "0.8823529411764706",
        226 => "0.8862745098039215",
        227 => "0.8901960784313725",
        228 => "0.8941176470588236",
        229 => "0.8980392156862745",
        230 => "0.9019607843137255",
        231 => "0.9058823529411765",
        232 => "0.9098039215686274",
        233 => "0.9137254901960784",
        234 => "0.9176470588235294",
        235 => "0.9215686274509803",
        236 => "0.9254901960784314",
        237 => "0.9294117647058824",
        238 => "0.9333333333333333",
        239 => "0.9372549019607843",
        240 => "0.9411764705882353",
        241 => "0.9450980392156862",
        242 => "0.9490196078431372",
        243 => "0.9529411764705882",
        244 => "0.9568627450980393",
        245 => "0.9607843137254902",
        246 => "0.9647058823529412",
        247 => "0.9686274509803922",
        248 => "0.9725490196078431",
        249 => "0.9764705882352941",
        250 => "0.9803921568627451",
        251 => "0.984313725490196",
        252 => "0.9882352941176471",
        253 => "0.9921568627450981",
        _ => "0.996078431372549",
    }
}

// ---------------------------------------------------------------------------
// Path data
// ---------------------------------------------------------------------------

/// The command that draws the segment from `p` to `c`: `H` for horizontal,
/// `V` for vertical, `L` otherwise.
pub open spec fn segment_text(p: Point, c: Point) -> Seq<char> {
    if p.1 == c.1 {
        seq!['H'] + int_text(c.0 as int)
    } else if p.0 == c.0 {
        seq!['V'] + int_text(c.1 as int)
    } else {
        seq!['L'] + int_text(c.0 as int) + seq![' '] + int_text(c.1 as int)
    }
}

/// The commands of the first `k` segments of `pts`.
pub open spec fn segments_text(pts: Seq<Point>, k: int) -> Seq<char>
    decreases k,
{
    if k <= 0 {
        Seq::empty()
    } else {
        segments_text(pts, k - 1) + segment_text(pts[k - 1], pts[k])
    }
}

/// The path data of one loop: `M x y`, one command per segment, `Z`. Loops
/// of fewer than three points draw nothing.
pub open spec fn path_text(pts: Seq<Point>) -> Seq<char> {
    if pts.len() < 3 {
        Seq::empty()
    } else {
        seq!['M'] + int_text(pts[0].0 as int) + seq![' '] + int_text(pts[0].1 as int)
            + segments_text(pts, pts.len() - 1) + seq!['Z']
    }
}

/// The path data of the first `k` loops, concatenated as subpaths.
pub open spec fn loops_text(ls: Seq<PathLoop>, k: int) -> Seq<char>
    decreases k,
{
    if k <= 0 {
        Seq::empty()
    } else {
        loops_text(ls, k - 1) + path_text(ls[k - 1].points@)
    }
}

/// The `<path>` element of one region.
pub open spec fn region_text(r: Region) -> Seq<char> {
    "  <path d=\""@ + loops_text(r.loops@, r.loops@.len() as int) + "\" fill=\""@
        + hex_color_text(r.color) + "\""@ + (if r.color.alpha() < 255 {
        " fill-opacity=\""@ + opacity_text(r.color.alpha()) + "\""@
    } else {
        Seq::empty()
    }) + (if r.loops@.len() > 1 {
        " fill-rule=\"evenodd\""@
    } else {
        Seq::empty()
    }) + "/>\n"@
}

/// The elements of the first `k` regions.
pub open spec fn regions_text(rs: Seq<Region>, k: int) -> Seq<char>
    decreases k,
{
    if k <= 0 {
        Seq::empty()
    } else {
        regions_text(rs, k - 1) + region_text(rs[k - 1])
    }
}

/// The opening `<svg>` tag for a `width x height` canvas.
pub open spec fn header_text(width: nat, height: nat) -> Seq<char> {
    "<svg xmlns=\"http://www.w3.org/2000/svg\" width=\""@ + dec_text(width) + "\" height=\""@
        + dec_text(height) + "\" viewBox=\"0 0 "@ + dec_text(width) + " "@ + dec_text(height)
        + "\" shape-rendering=\"crispEdges\">\n"@
}

/// The whole SVG document.
pub open spec fn svg_text(rs: Seq<Region>, width: nat, height: nat) -> Seq<char> {
    header_text(width, height) + regions_text(rs, rs.len() as int) + "</svg>\n"@
}

/// Is `c` a decimal digit?
pub open spec fn is_digit(c: char) -> bool {
    '0' <= c <= '9'
}

/// The number a decimal digit stands for.
pub open spec fn digit_value(c: char) -> int {
    c as int - '0' as int
}

/// The number that a string of decimal digits spells.
pub open spec fn dec_value(s: Seq<char>) -> int
    decreases s.len(),
{
    if s.len() == 0 {
        0
    } else {
        10 * dec_value(s.drop_last()) + digit_value(s.last())
    }
}

/// The number a lowercase hexadecimal digit stands for.
pub open spec fn hex_value(c: char) -> int {
    if '0' <= c <= '9' {
        c as int - '0' as int
    } else {
        c as int - 'a' as int + 10
    }
}

proof fn lemma_digit_char(d: int)
    requires
        0 <= d < 10,
    ensures
        is_digit(digit_char(d)),
        digit_value(digit_char(d)) == d,
        digit_char(d) == '0' <==> d == 0,
{
}

proof fn lemma_hex_char(d: int)
    requires
        0 <= d < 16,
    ensures
        ('0' <= hex_char(d) <= '9') || ('a' <= hex_char(d) <= 'f'),
        hex_value(hex_char(d)) == d,
{
}

/// Law: the decimal text of `n` is a non-empty string of digits without a
/// leading zero (but for `0` itself) that reads back as `n`.
pub proof fn law_dec_text(n: nat)
    ensures
        dec_text(n).len() >= 1,
        forall|i: int| 0 <= i < dec_text(n).len() ==> is_digit(#[trigger] dec_text(n)[i]),
        dec_text(n)[0] == '0' ==> n == 0 && dec_text(n).len() == 1,
        dec_value(dec_text(n)) == n,
    decreases n,
{
    if n < 10 {
        lemma_digit_char(n as int);
        assert(seq![digit_char(n as int)].drop_last() =~= Seq::<char>::empty());
        assert(dec_value(Seq::<char>::empty()) == 0);
        assert(dec_text(n) == seq![digit_char(n as int)]);
        assert(dec_text(n).last() == digit_char(n as int));
    } else {
        law_dec_text(n / 10);
        lemma_digit_char((n % 10) as int);
        let t = dec_text(n);
        let pre = dec_text(n / 10);
        assert(t.drop_last() =~= pre);
        assert(forall|i: int| 0 <= i < t.len() ==> is_digit(#[trigger] t[i])) by {
            assert forall|i: int| 0 <= i < t.len() implies is_digit(#[trigger] t[i]) by {
                if i < pre.len() {
                    assert(t[i] == pre[i]);
                }
            }
        }
        assert(t[0] == pre[0]);
        assert(t.last() == digit_char((n % 10) as int));
        assert(dec_value(t) == 10 * dec_value(pre) + digit_value(t.last()));
        assert(n == 10 * (n / 10) + n % 10);
    }
}

/// Law: the text of an integer is a minus sign exactly for a negative
/// number, followed by the decimal text of its magnitude.
pub proof fn law_int_text(n: int)
    ensures
        (int_text(n)[0] == '-') <==> n < 0,
        n < 0 ==> dec_value(int_text(n).skip(1)) == -n && int_text(n).skip(1) == dec_text((-n) as nat),
        n >= 0 ==> dec_value(int_text(n)) == n,
{
    if n < 0 {
        law_dec_text((-n) as nat);
        assert(int_text(n).skip(1) =~= dec_text((-n) as nat));
    } else {
        law_dec_text(n as nat);
        lemma_digit_char(0);
        if dec_text(n as nat)[0] == '-' {
            assert(is_digit(dec_text(n as nat)[0]));
        }
    }
}

/// Law: a colour is written as `#` and six lowercase hexadecimal digits
/// that read back, two by two, as its red, green and blue channels.
pub proof fn law_hex_color(c: Argb)
    ensures
        ({
            let t = hex_color_text(c);
            &&& t.len() == 7
            &&& t[0] == '#'
            &&& forall|i: int| 1 <= i < 7 ==> ('0' <= #[trigger] t[i] <= '9') || ('a' <= t[i] <= 'f')
            &&& 16 * hex_value(t[1]) + hex_value(t[2]) == c.red()
            &&& 16 * hex_value(t[3]) + hex_value(t[4]) == c.green()
            &&& 16 * hex_value(t[5]) + hex_value(t[6]) == c.blue()
        }),
{
    let (r, g, b) = (c.red() as int, c.green() as int, c.blue() as int);
    lemma_hex_char(r / 16);
    lemma_hex_char(r % 16);
    lemma_hex_char(g / 16);
    lemma_hex_char(g % 16);
    lemma_hex_char(b / 16);
    lemma_hex_char(b % 16);
    let t = hex_color_text(c);
    assert(t =~= seq!['#', hex_char(r / 16), hex_char(r % 16), hex_char(g / 16), hex_char(g % 16), hex_char(b / 16), hex_char(b % 16)]);
}

/// Law: a segment of a loop is written by the end point it goes to: as
/// `H` and the end's x when it is horizontal, as `V` and the end's y when
/// it is vertical and not horizontal, and otherwise as `L` with the end's x
/// and y.
pub proof fn law_segment_text(p: Point, c: Point)
    ensures
        p.1 == c.1 ==> segment_text(p, c) == seq!['H'] + int_text(c.0 as int),
        p.1 != c.1 && p.0 == c.0 ==> segment_text(p, c) == seq!['V'] + int_text(c.1 as int),
        p.1 != c.1 && p.0 != c.0 ==> segment_text(p, c) == seq!['L'] + int_text(c.0 as int) + seq![' '] + int_text(
            c.1 as int,
        ),
{
}

/// Law: the path data of a loop of at least three points moves to its
/// first point, `M x y`, writes one segment command for every following
/// point, in order, and closes with `Z`; a loop of fewer points draws
/// nothing.
pub proof fn law_path_text(pts: Seq<Point>)
    ensures
        pts.len() < 3 ==> path_text(pts) == Seq::<char>::empty(),
        pts.len() >= 3 ==> path_text(pts) == seq!['M'] + int_text(pts[0].0 as int) + seq![' '] + int_text(
            pts[0].1 as int,
        ) + segments_text(pts, pts.len() - 1) + seq!['Z'],
        forall|k: int|
            0 < k < pts.len() ==> #[trigger] segments_text(pts, k) == segments_text(pts, k - 1) + segment_text(
                pts[k - 1],
                pts[k],
            ),
{
}

/// Law: every region becomes one `<path>` element, in the order of the
/// regions. Its `d` attribute holds the path data of its loops, in order;
/// its `fill` is the colour's hexadecimal text; it carries a
/// `fill-opacity` attribute exactly when the colour is not fully opaque,
/// and `fill-rule="evenodd"` exactly when it has more than one loop.
pub proof fn law_region_element(rs: Seq<Region>, k: int)
    requires
        0 < k <= rs.len(),
    ensures
        regions_text(rs, k) == regions_text(rs, k - 1) + region_text(rs[k - 1]),
        ({
            let r = rs[k - 1];
            let opacity = if r.color.alpha() < 255 {
                " fill-opacity=\""@ + opacity_text(r.color.alpha()) + "\""@
            } else {
                Seq::<char>::empty()
            };
            let rule = if r.loops@.len() > 1 {
                " fill-rule=\"evenodd\""@
            } else {
                Seq::<char>::empty()
            };
            region_text(r) == "  <path d=\""@ + loops_text(r.loops@, r.loops@.len() as int) + "\" fill=\""@
                + hex_color_text(r.color) + "\""@ + opacity + rule + "/>\n"@
        }),
        forall|j: int|
            0 < j <= rs[k - 1].loops@.len() ==> #[trigger] loops_text(rs[k - 1].loops@, j) == loops_text(
                rs[k - 1].loops@,
                j - 1,
            ) + path_text(rs[k - 1].loops@[j - 1].points@),
{
}

/// Law: the exported document is one `<svg>` element for a `width` by
/// `height` canvas: its `width` and `height` attributes are the canvas's
/// width and height, its `viewBox` is `0 0` followed by that same width and
/// height, in that order, and the document ends by closing the element.
pub proof fn law_svg_frame(rs: Seq<Region>, width: nat, height: nat)
    ensures
        ({
            let t = svg_text(rs, width, height);
            let w = dec_text(width);
            let h = dec_text(height);
            let head = "<svg xmlns=\"http://www.w3.org/2000/svg\" width=\""@ + w + "\" height=\""@ + h
                + "\" viewBox=\"0 0 "@ + w + " "@ + h + "\""@;
            &&& head.len() <= t.len()
            &&& t.subrange(0, head.len() as int) == head
            &&& t.subrange(t.len() - 7, t.len() as int) == "</svg>\n"@
        }),
{
    let w = dec_text(width);
    let h = dec_text(height);
    let head = "<svg xmlns=\"http://www.w3.org/2000/svg\" width=\""@ + w + "\" height=\""@ + h
        + "\" viewBox=\"0 0 "@ + w + " "@ + h + "\""@;
    let rest = " shape-rendering=\"crispEdges\">\n"@;
    reveal_strlit("\" shape-rendering=\"crispEdges\">\n");
    reveal_strlit("\"");
    reveal_strlit(" shape-rendering=\"crispEdges\">\n");
    reveal_strlit("</svg>\n");
    assert("\" shape-rendering=\"crispEdges\">\n"@ =~= "\""@ + rest);
    assert(header_text(width, height) =~= head + rest);
    let body = regions_text(rs, rs.len() as int);
    let t = svg_text(rs, width, height);
    assert(t =~= head + (rest + body + "</svg>\n"@));
    assert(t.subrange(0, head.len() as int) =~= head);
    assert(t.subrange(t.len() - 7, t.len() as int) =~= "</svg>\n"@);
}

/// Append the path data (`M`/`H`/`V`/`L`/`Z`) for one loop. Horizontal and
/// vertical segments are emitted as single `H`/`V` commands.
pub fn write_path_data(d: &mut String, loop_: &PathLoop)
    ensures
        final(d)@ == old(d)@ + path_text(loop_.points@),
{
    let points = &loop_.points;
    let n = points.len();
    if n < 3 {
        assert(old(d)@ + Seq::<char>::empty() =~= old(d)@);
        return;
    }
    proof {
        reveal_strlit("M");
        reveal_strlit(" ");
        reveal_strlit("H");
        reveal_strlit("V");
        reveal_strlit("L");
        reveal_strlit("Z");
    }
    let ghost start = d@;
    d.append("M");
    push_i32(d, points[0].0);
    d.append(" ");
    push_i32(d, points[0].1);
    let ghost head = d@;
    let mut k: usize = 1;
    while k < n
        invariant
            1 <= k <= n,
            n == points@.len(),
            d@ == head + segments_text(points@, k - 1),
        decreases n - k,
    {
        proof {
            reveal_strlit(" ");
            reveal_strlit("H");
            reveal_strlit("V");
            reveal_strlit("L");
        }
        let (px, py) = points[k - 1];
        let (cx, cy) = points[k];
        let ghost before = d@;
        if py == cy {
            d.append("H");
            push_i32(d, cx);
        } else if px == cx {
            d.append("V");
            push_i32(d, cy);
        } else {
            d.append("L");
            push_i32(d, cx);
            d.append(" ");
            push_i32(d, cy);
        }
        assert(d@ =~= before + segment_text(points@[k - 1], points@[k as int]));
        k += 1;
    }
    d.append("Z");
    assert(d@ =~= start + path_text(loop_.points@));
}

/// Append the path data of all loops of a region.
fn push_loops(d: &mut String, loops: &Vec<PathLoop>)
    ensures
        final(d)@ == old(d)@ + loops_text(loops@, loops@.len() as int),
{
    let ghost start = d@;
    let mut j: usize = 0;
    while j < loops.len()
        invariant
            j <= loops@.len(),
            d@ == start + loops_text(loops@, j as int),
        decreases loops@.len() - j,
    {
        write_path_data(d, &loops[j]);
        j += 1;
    }
}

/// Append the attributes that follow the fill colour: the opacity of a
/// translucent colour and the fill rule of a multi-loop region.
fn push_fill_extras(svg: &mut String, region: &Region)
    ensures
        final(svg)@ == old(svg)@ + (if region.color.alpha() < 255 {
            " fill-opacity=\""@ + opacity_text(region.color.alpha()) + "\""@
        } else {
            Seq::empty()
        }) + (if region.loops@.len() > 1 {
            " fill-rule=\"evenodd\""@
        } else {
            Seq::empty()
        }),
{
    let ghost start = svg@;
    let a = region.color.a();
    if a < 255 {
        svg.append(" fill-opacity=\"");
        svg.append(opacity_str(a));
        svg.append("\"");
    }
    let ghost mid = svg@;
    if region.loops.len() > 1 {
        svg.append(" fill-rule=\"evenodd\"");
    }
    assert(svg@ =~= start + (if region.color.alpha() < 255 {
        " fill-opacity=\""@ + opacity_text(region.color.alpha()) + "\""@
    } else {
        Seq::empty()
    }) + (if region.loops@.len() > 1 {
        " fill-rule=\"evenodd\""@
    } else {
        Seq::empty()
    }));
}

/// Append the `<path>` element of one region.
fn push_region(svg: &mut String, region: &Region)
    ensures
        final(svg)@ == old(svg)@ + region_text(*region),
{
    let ghost start = svg@;
    let mut d = String::new();
    push_loops(&mut d, &region.loops);
    assert(d@ =~= loops_text(region.loops@, region.loops@.len() as int));
    svg.append("  <path d=\"");
    svg.append(d.as_str());
    svg.append("\" fill=\"");
    let hex = hex_color(region.color);
    svg.append(hex.as_str());
    svg.append("\"");
    push_fill_extras(svg, region);
    svg.append("/>\n");
    assert(svg@ =~= start + region_text(*region));
}

/// Serialise the traced regions into an SVG document of the given pixel
/// dimensions (the natural `viewBox` of the output).
///
/// - Fills are hex colours; colours with alpha below 255 also get a
///   `fill-opacity` attribute.
/// - Every region becomes one `<path>` whose loops are concatenated as
///   subpaths; regions of more than one loop get `fill-rule="evenodd"`, so
///   holes render correctly (for a single loop the default rule fills the
///   same).
/// - `shape-rendering="crispEdges"` plus integer grid coordinates keep
///   adjacent shapes flush.
pub fn export(regions: &[Region], width: usize, height: usize) -> (svg: String)
    ensures
        svg@ == svg_text(regions@, width as nat, height as nat),
{
    proof {
        reveal_strlit("<svg xmlns=\"http://www.w3.org/2000/svg\" width=\"");
    }
    let mut svg = String::new();
    svg.append("<svg xmlns=\"http://www.w3.org/2000/svg\" width=\"");
    push_dec(&mut svg, width as u64);
    svg.append("\" height=\"");
    push_dec(&mut svg, height as u64);
    svg.append("\" viewBox=\"0 0 ");
    push_dec(&mut svg, width as u64);
    svg.append(" ");
    push_dec(&mut svg, height as u64);
    svg.append("\" shape-rendering=\"crispEdges\">\n");
    assert(svg@ =~= header_text(width as nat, height as nat));
    let ghost head = svg@;
    let mut i: usize = 0;
    while i < regions.len()
        invariant
            i <= regions@.len(),
            svg@ == head + regions_text(regions@, i as int),
        decreases regions@.len() - i,
    {
        let ghost before = svg@;
        push_region(&mut svg, &regions[i]);
        assert(svg@ =~= before + region_text(regions@[i as int]));
        i += 1;
    }
    svg.append("</svg>\n");
    svg
}

} // verus!
