//! Output in Chinese or in English.

use crate::text::{chars_of, replace, replaced, stands_at, starts_with, str_eq, string_of, texts};
use vstd::prelude::*;
use vstd::string::*;

verus! {

/// The language of the output.
#[derive(Clone, Copy, Debug, PartialEq, Eq, Structural)]
pub enum Lang {
    Zh,
    En,
}

/// The Chinese and the English text for a key.
pub open spec fn entry(key: Seq<char>) -> Option<(Seq<char>, Seq<char>)> {
    if key == "parsed_danmakus"@ {
        Some(("已解析 {} 条弹幕"@, "Parsed {} danmakus"@))
    } else if key == "filtered_out"@ {
        Some(("滤过 {} 个"@, "Filtered out {}"@))
    } else if key == "codec_ready"@ {
        Some(("编解码器已就绪"@, "Codecs ready"@))
    } else if key == "rendering"@ {
        Some(("正在渲染弹幕到视频帧..."@, "Rendering danmaku onto video frames..."@))
    } else if key == "merging_audio"@ {
        Some(("正在合并音频轨道..."@, "Merging audio tracks..."@))
    } else if key == "output_file"@ {
        Some(("输出文件: {}"@, "Output file: {}"@))
    } else if key == "done_in"@ {
        Some(("完成，总用时 {} 秒"@, "Done in {} seconds"@))
    } else if key == "render_progress"@ {
        Some(("正在渲染弹幕... 已处理 {} 帧"@, "Rendering danmaku... {} frames processed"@))
    } else if key == "about"@ {
        Some(("为视频叠加B站弹幕（danmaku）的命令行工具，支持从B站视频ID自动获取弹幕XML或指定本地弹幕文件"@, "CLI tool to overlay Bilibili danmaku (bullet comments) onto videos; fetches danmaku XML by Bilibili video ID or from a local file"@))
    } else if key == "input"@ {
        Some(("输入视频文件路径"@, "Input video file path"@))
    } else if key == "output"@ {
        Some(("输出视频路径（默认在源文件名前添加 bili_add_on_ 前缀）"@, "Output video path (defaults to bili_add_on_<source name>)"@))
    } else if key == "bvid"@ {
        Some(("B站视频 ID（如 BV1fRNH6kEra），将自动拉取对应弹幕"@, "Bilibili video ID (e.g. BV1fRNH6kEra); danmaku is fetched automatically"@))
    } else if key == "xml"@ {
        Some(("本地弹幕 XML 文件路径"@, "Path to a local danmaku XML file"@))
    } else if key == "opacity"@ {
        Some(("弹幕不透明度，取值范围 0~1"@, "Danmaku opacity, in range 0~1"@))
    } else if key == "top_ratio"@ {
        Some(("弹幕显示区域上界与画面高度的比值，0 为顶端"@, "Top edge of the danmaku area as a fraction of video height; 0 = top"@))
    } else if key == "bottom_ratio"@ {
        Some(("弹幕显示区域下界与画面高度的比值，1 为底端"@, "Bottom edge of the danmaku area as a fraction of video height; 1 = bottom"@))
    } else if key == "font_scale"@ {
        Some(("弹幕字号缩放比"@, "Danmaku font size scale"@))
    } else if key == "font"@ {
        Some(("用户字体文件路径（ttf/otf/ttc），可重复传入多个，按传入顺序依次降级；优先级高于系统字体与项目内置字体"@, "User font file path (ttf/otf/ttc); may be repeated, used in the given order; higher priority than system and bundled fonts"@))
    } else if key == "system_fonts"@ {
        Some(("启用系统字体作为回退（开启后优先级：用户字体 > 系统字体 > 项目内置字体）"@, "Enable system fonts as fallback (priority: user fonts > system fonts > bundled fonts)"@))
    } else if key == "speed"@ {
        Some(("弹幕滚动速度（像素每帧）"@, "Danmaku scroll speed (pixels per frame)"@))
    } else if key == "line_spacing"@ {
        Some(("弹幕行间距（像素）"@, "Danmaku line spacing (pixels)"@))
    } else if key == "min_space"@ {
        Some(("同一轨道内前后滚动弹幕的最小水平间距（像素），与字号无关"@, "Minimum horizontal gap between scrolling danmaku in the same rail (pixels)"@))
    } else if key == "fixed_duration"@ {
        Some(("固定弹幕的持续时间（秒）"@, "Fixed danmaku duration (seconds)"@))
    } else if key == "no_audio"@ {
        Some(("不保留输入视频的音频轨道"@, "Do not keep the input video's audio track"@))
    } else if key == "quiet"@ {
        Some(("静默模式，不输出进度提示"@, "Quiet mode; suppress progress output"@))
    } else if key == "encoder"@ {
        Some(("视频编码器: auto/nvenc/amf/qsv/software（auto 自动选择最佳可用编码器）"@, "Video encoder: auto/nvenc/amf/qsv/software (auto selects the best available encoder)"@))
    } else if key == "x264_preset"@ {
        Some(("libx264 编码预设（仅软件编码生效）: ultrafast/superfast/veryfast/faster/fast/medium/slow/slower/veryslow"@, "libx264 encoding preset (software encoding only): ultrafast/superfast/veryfast/faster/fast/medium/slow/slower/veryslow"@))
    } else if key == "longest"@ {
        Some(("若弹幕时间跨度大于视频时长，自动延长输出视频（末尾补黑帧）以完整显示全部弹幕"@, "Extend the output video (black frames at the end) so all danmaku are fully displayed"@))
    } else if key == "filter"@ {
        Some(("弹幕过滤条件（regex）"@, "Danmaku filter (regex)"@))
    } else if key == "range"@ {
        Some(("视频处理时段：{起始}-{结束} 或 {结束}；时间格式为 时:分:秒 / 分:秒 / 秒，如 1:23-5:00、162:12、3.1415926"@, "Video time range: {start}-{end} or {end}; formats: hh:mm:ss / mm:ss / seconds, e.g. 1:23-5:00, 162:12, 3.1415926"@))
    } else if key == "lang"@ {
        Some(("输出语言：zh/en/auto（auto 按系统区域设置）"@, "Output language: zh/en/auto (auto follows system locale)"@))
    } else {
        None
    }
}

/// Looks the two texts for a key up.
fn lookup(key: &str) -> (texts: Option<(&'static str, &'static str)>)
    ensures
        match texts {
            Some((zh, en)) => entry(key@) == Some((zh@, en@)),
            None => entry(key@) is None,
        },
{
    if str_eq(key, "parsed_danmakus") {
        Some(("已解析 {} 条弹幕", "Parsed {} danmakus"))
    } else if str_eq(key, "filtered_out") {
        Some(("滤过 {} 个", "Filtered out {}"))
    } else if str_eq(key, "codec_ready") {
        Some(("编解码器已就绪", "Codecs ready"))
    } else if str_eq(key, "rendering") {
        Some(("正在渲染弹幕到视频帧...", "Rendering danmaku onto video frames..."))
    } else if str_eq(key, "merging_audio") {
        Some(("正在合并音频轨道...", "Merging audio tracks..."))
    } else if str_eq(key, "output_file") {
        Some(("输出文件: {}", "Output file: {}"))
    } else if str_eq(key, "done_in") {
        Some(("完成，总用时 {} 秒", "Done in {} seconds"))
    } else if str_eq(key, "render_progress") {
        Some(("正在渲染弹幕... 已处理 {} 帧", "Rendering danmaku... {} frames processed"))
    } else if str_eq(key, "about") {
        Some(("为视频叠加B站弹幕（danmaku）的命令行工具，支持从B站视频ID自动获取弹幕XML或指定本地弹幕文件", "CLI tool to overlay Bilibili danmaku (bullet comments) onto videos; fetches danmaku XML by Bilibili video ID or from a local file"))
    } else if str_eq(key, "input") {
        Some(("输入视频文件路径", "Input video file path"))
    } else if str_eq(key, "output") {
        Some(("输出视频路径（默认在源文件名前添加 bili_add_on_ 前缀）", "Output video path (defaults to bili_add_on_<source name>)"))
    } else if str_eq(key, "bvid") {
        Some(("B站视频 ID（如 BV1fRNH6kEra），将自动拉取对应弹幕", "Bilibili video ID (e.g. BV1fRNH6kEra); danmaku is fetched automatically"))
    } else if str_eq(key, "xml") {
        Some(("本地弹幕 XML 文件路径", "Path to a local danmaku XML file"))
    } else if str_eq(key, "opacity") {
        Some(("弹幕不透明度，取值范围 0~1", "Danmaku opacity, in range 0~1"))
    } else if str_eq(key, "top_ratio") {
        Some(("弹幕显示区域上界与画面高度的比值，0 为顶端", "Top edge of the danmaku area as a fraction of video height; 0 = top"))
    } else if str_eq(key, "bottom_ratio") {
        Some(("弹幕显示区域下界与画面高度的比值，1 为底端", "Bottom edge of the danmaku area as a fraction of video height; 1 = bottom"))
    } else if str_eq(key, "font_scale") {
        Some(("弹幕字号缩放比", "Danmaku font size scale"))
    } else if str_eq(key, "font") {
        Some(("用户字体文件路径（ttf/otf/ttc），可重复传入多个，按传入顺序依次降级；优先级高于系统字体与项目内置字体", "User font file path (ttf/otf/ttc); may be repeated, used in the given order; higher priority than system and bundled fonts"))
    } else if str_eq(key, "system_fonts") {
        Some(("启用系统字体作为回退（开启后优先级：用户字体 > 系统字体 > 项目内置字体）", "Enable system fonts as fallback (priority: user fonts > system fonts > bundled fonts)"))
    } else if str_eq(key, "speed") {
        Some(("弹幕滚动速度（像素每帧）", "Danmaku scroll speed (pixels per frame)"))
    } else if str_eq(key, "line_spacing") {
        Some(("弹幕行间距（像素）", "Danmaku line spacing (pixels)"))
    } else if str_eq(key, "min_space") {
        Some(("同一轨道内前后滚动弹幕的最小水平间距（像素），与字号无关", "Minimum horizontal gap between scrolling danmaku in the same rail (pixels)"))
    } else if str_eq(key, "fixed_duration") {
        Some(("固定弹幕的持续时间（秒）", "Fixed danmaku duration (seconds)"))
    } else if str_eq(key, "no_audio") {
        Some(("不保留输入视频的音频轨道", "Do not keep the input video's audio track"))
    } else if str_eq(key, "quiet") {
        Some(("静默模式，不输出进度提示", "Quiet mode; suppress progress output"))
    } else if str_eq(key, "encoder") {
        Some(("视频编码器: auto/nvenc/amf/qsv/software（auto 自动选择最佳可用编码器）", "Video encoder: auto/nvenc/amf/qsv/software (auto selects the best available encoder)"))
    } else if str_eq(key, "x264_preset") {
        Some(("libx264 编码预设（仅软件编码生效）: ultrafast/superfast/veryfast/faster/fast/medium/slow/slower/veryslow", "libx264 encoding preset (software encoding only): ultrafast/superfast/veryfast/faster/fast/medium/slow/slower/veryslow"))
    } else if str_eq(key, "longest") {
        Some(("若弹幕时间跨度大于视频时长，自动延长输出视频（末尾补黑帧）以完整显示全部弹幕", "Extend the output video (black frames at the end) so all danmaku are fully displayed"))
    } else if str_eq(key, "filter") {
        Some(("弹幕过滤条件（regex）", "Danmaku filter (regex)"))
    } else if str_eq(key, "range") {
        Some(("视频处理时段：{起始}-{结束} 或 {结束}；时间格式为 时:分:秒 / 分:秒 / 秒，如 1:23-5:00、162:12、3.1415926", "Video time range: {start}-{end} or {end}; formats: hh:mm:ss / mm:ss / seconds, e.g. 1:23-5:00, 162:12, 3.1415926"))
    } else if str_eq(key, "lang") {
        Some(("输出语言：zh/en/auto（auto 按系统区域设置）", "Output language: zh/en/auto (auto follows system locale)"))
    } else {
        None
    }
}

/// The text for a key in a language; the key itself if it is not known.
pub open spec fn message(lang: Lang, key: Seq<char>) -> Seq<char> {
    match (entry(key), lang) {
        (Some((zh, en)), Lang::Zh) => zh,
        (Some((zh, en)), Lang::En) => en,
        (None, _) => key,
    }
}

/// An ASCII letter in lower case; any other character as it is.
pub open spec fn ascii_lower(c: char) -> char {
    if 'A' <= c <= 'Z' {
        (c as int + 32) as char
    } else {
        c
    }
}

/// The language for the given argument, on a system with the given locale.
pub open spec fn lang_for(lang_arg: Option<Seq<char>>, locale: Option<Seq<char>>) -> Lang {
    if lang_arg == Some("zh"@) {
        Lang::Zh
    } else if lang_arg == Some("en"@) {
        Lang::En
    } else if locale is Some && stands_at(
        locale->0.map_values(|c: char| ascii_lower(c)),
        "zh"@,
        0,
    ) {
        Lang::Zh
    } else {
        Lang::En
    }
}

/// What an optional text says.
pub open spec fn opt_view(s: Option<&str>) -> Option<Seq<char>> {
    match s {
        Some(s) => Some(s@),
        None => None,
    }
}

/// Turns the ASCII letters of a text to lower case.
fn to_ascii_lower(s: &str) -> (lower: String)
    ensures
        lower@ == s@.map_values(|c: char| ascii_lower(c)),
{
    let mut chars = chars_of(s);
    let mut i: usize = 0;
    while i < chars.len()
        invariant
            i <= chars@.len(),
            chars@.len() == s@.len(),
            forall|k: int| 0 <= k < i ==> chars@[k] == ascii_lower(s@[k]),
            forall|k: int| i <= k < chars@.len() ==> chars@[k] == s@[k],
        decreases chars@.len() - i,
    {
        let c = chars[i];
        if 'A' <= c && c <= 'Z' {
            let lower = (c as u8 + 32) as char;
            assert(lower as int == c as int + 32);
            chars.set(i, lower);
        }
        i += 1;
    }
    let lower = string_of(&chars);
    assert(lower@ == s@.map_values(|c: char| ascii_lower(c)));
    lower
}

/// `sys_locale::get_locale`: the locale of the system that the program runs on. Nothing is claimed of
/// it, for it depends on that system.
#[verifier::external_body]
pub(crate) fn system_locale() -> (locale: Option<String>) {
    sys_locale::get_locale()
}

impl Lang {
    /// The language that the argument of `--lang` asks for: `zh` or `en`, or else that of the
    /// system.
    pub fn detect(lang_arg: Option<&str>) -> (lang: Lang)
        ensures
            exists|locale: Option<Seq<char>>| lang == #[trigger] lang_for(
                opt_view(lang_arg),
                locale,
            ),
    {
        let locale = system_locale();
        let locale = match &locale {
            Some(l) => Some(l.as_str()),
            None => None,
        };
        Lang::detect_with_locale(lang_arg, locale)
    }

    /// The language that the argument of `--lang` asks for: `zh` or `en`, or else that of the given
    /// locale, which is Chinese if it begins with `zh`.
    pub fn detect_with_locale(lang_arg: Option<&str>, locale: Option<&str>) -> (lang: Lang)
        ensures
            lang == lang_for(opt_view(lang_arg), opt_view(locale)),
    {
        if let Some(arg) = lang_arg {
            if str_eq(arg, "zh") {
                return Lang::Zh;
            }
            if str_eq(arg, "en") {
                return Lang::En;
            }
        }
        if let Some(l) = locale {
            let lower = to_ascii_lower(l);
            if starts_with(lower.as_str(), "zh") {
                return Lang::Zh;
            }
        }
        Lang::En
    }

    /// The text for a key; the key itself if it is not known.
    pub fn t<'a>(&self, key: &'a str) -> (text: &'a str)
        ensures
            text@ == message(*self, key@),
    {
        match lookup(key) {
            Some((zh, en)) => match self {
                Lang::Zh => zh,
                Lang::En => en,
            },
            None => key,
        }
    }

    /// The text for a key, with `value` in the place of every `{}` in it.
    pub fn fill(&self, key: &str, value: &str) -> (text: String)
        ensures
            text@ == replaced(message(*self, key@), "{}"@, value@),
    {
        proof {
            reveal_strlit("{}");
        }
        replace(self.t(key), "{}", value)
    }

    /// The text for a key, with what `value` displays as in the place of every `{}` in it.
    pub fn t_fmt<T: core::fmt::Display>(&self, key: &str, value: T) -> (text: String)
        ensures
            exists|shown: String|
                {
                    &&& #[trigger] to_string_from_display_ensures::<T>(&value, shown)
                    &&& text@ == replaced(message(*self, key@), "{}"@, shown@)
                },
    {
        let shown = value.to_string();
        self.fill(key, shown.as_str())
    }

    /// The help for a command-line argument, where it differs from the Chinese one.
    pub fn arg_help(&self, arg_id: &str) -> (help: Option<&'static str>)
        ensures
            match help {
                Some(h) => *self == Lang::En && entry(arg_id@) is Some && h@ == message(
                    Lang::En,
                    arg_id@,
                ),
                None => *self == Lang::Zh || entry(arg_id@) is None,
            },
    {
        match self {
            Lang::Zh => None,
            Lang::En => match lookup(arg_id) {
                Some((_, en)) => Some(en),
                None => None,
            },
        }
    }
}

/// What the arguments from `i` on give for `--lang`, before the others are read.
pub open spec fn lang_arg(argv: Seq<Seq<char>>, i: int) -> Option<Seq<char>>
    decreases argv.len() - i,
{
    if i >= argv.len() {
        None
    } else if stands_at(argv[i], "--lang="@, 0) {
        Some(argv[i].skip(7))
    } else if argv[i] == "--lang"@ {
        if i + 1 < argv.len() {
            Some(argv[i + 1])
        } else {
            None
        }
    } else {
        lang_arg(argv, i + 1)
    }
}

/// Finds the value of `--lang` among the arguments after the first.
pub fn lang_arg_from(argv: &[String]) -> (value: Option<String>)
    ensures
        match value {
            Some(v) => lang_arg(texts(argv@), 1) == Some(v@),
            None => lang_arg(texts(argv@), 1) is None,
        },
{
    let ghost views = texts(argv@);
    proof {
        reveal_strlit("--lang=");
    }
    let len: usize = argv.len();
    let mut i: usize = 1;
    while i < len
        invariant
            len == argv@.len(),
            views == texts(argv@),
            "--lang="@.len() == 7,
            1 <= i,
            lang_arg(views, i as int) == lang_arg(views, 1),
        decreases len - i,
    {
        let arg = argv[i].as_str();
        assert(views[i as int] == arg@);
        if starts_with(arg, "--lang=") {
            let n: usize = arg.unicode_len();
            let value = arg.substring_char(7, n).to_owned();
            assert(value@ == arg@.skip(7));
            return Some(value);
        }
        if str_eq(arg, "--lang") {
            if i + 1 < len {
                assert(views[i + 1] == argv@[i + 1]@);
                return Some(argv[i + 1].clone());
            }
            return None;
        }
        i += 1;
    }
    None
}

/// The language that is asked for is used, whatever the locale of the system.
pub proof fn law_asked_language_wins(locale: Option<Seq<char>>)
    ensures
        lang_for(Some("zh"@), locale) == Lang::Zh,
        lang_for(Some("en"@), locale) == Lang::En,
{
    reveal_strlit("zh");
    reveal_strlit("en");
    assert("zh"@[0] != "en"@[0]);
}

/// A key that is not known passes through, in every language.
pub proof fn law_unknown_key_passes_through(lang: Lang, key: Seq<char>)
    requires
        entry(key) is None,
    ensures
        message(lang, key) == key,
{
}

/// The first argument that gives a language counts: what stands behind its equals sign, or else the
/// argument after it.
pub proof fn law_first_language_counts(argv: Seq<Seq<char>>, from: int, i: int, value: Seq<char>)
    requires
        0 <= from <= i < argv.len(),
        forall|k: int|
            from <= k < i ==> #[trigger] argv[k] != "--lang"@ && !stands_at(argv[k], "--lang="@, 0),
    ensures
        argv[i] == "--lang="@ + value ==> lang_arg(argv, from) == Some(value),
        argv[i] == "--lang"@ && i + 1 < argv.len() ==> lang_arg(argv, from) == Some(argv[i + 1]),
        argv[i] == "--lang"@ && i + 1 == argv.len() ==> lang_arg(argv, from) is None,
    decreases i - from,
{
    reveal_strlit("--lang=");
    reveal_strlit("--lang");
    if from < i {
        assert(argv[from] != "--lang"@);
        law_first_language_counts(argv, from + 1, i, value);
    } else {
        if argv[i] == "--lang="@ + value {
            assert(argv[i].skip(7) == value);
            assert(argv[i].subrange(0, 7) == "--lang="@);
            assert(stands_at(argv[i], "--lang="@, 0));
        }
        if argv[i] == "--lang"@ {
            assert(argv[i].len() == 6);
            assert(!stands_at(argv[i], "--lang="@, 0));
        }
    }
}

/// Unless a known language is asked for, a locale that begins with `zh`, in either case of its
/// letters, means Chinese, and every other, or none, English.
pub proof fn law_locale_decides(arg: Option<Seq<char>>, locale: Option<Seq<char>>)
    requires
        arg != Some("zh"@),
        arg != Some("en"@),
    ensures
        lang_for(arg, locale) == Lang::Zh <==> locale is Some && locale->0.len() >= 2 && (
        locale->0[0] == 'z' || locale->0[0] == 'Z') && (locale->0[1] == 'h' || locale->0[1] == 'H'),
{
    reveal_strlit("zh");
    if let Some(l) = locale {
        let lower = l.map_values(|c: char| ascii_lower(c));
        if l.len() >= 2 {
            let front = lower.subrange(0, 2);
            assert(front[0] == ascii_lower(l[0]) && front[1] == ascii_lower(l[1]));
            if stands_at(lower, "zh"@, 0) {
                assert(front[0] == 'z' && front[1] == 'h');
            }
            if (l[0] == 'z' || l[0] == 'Z') && (l[1] == 'h' || l[1] == 'H') {
                assert(front =~= "zh"@);
            }
        }
    }
}

} // verus!
