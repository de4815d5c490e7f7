use vstd::prelude::*;
use vstd::string::*;
use crate::config::{CONFIG, JvmVersion};
use crate::strutil::{
    split_at_char, split_by, str_eq, trim_end_spec, trim_end_while, trim_spec, trim_start_spec,
    trim_start_while, trim_while, views_of, TrimClass,
};

verus! {

/// The configuration as the parser reasons about it: each field by its view.
pub struct ConfigView {
    pub pre: Seq<Seq<char>>,
    pub bin: Seq<char>,
    pub src: Seq<char>,
    pub test: Seq<char>,
    pub lib: Seq<char>,
    pub classpath: Seq<char>,
    pub post: Seq<Seq<char>>,
    pub comp_flags: Seq<char>,
    pub run_args: Seq<Seq<char>>,
    pub cache: Seq<char>,
    pub threads: int,
    pub jvm_version: JvmVersion,
    pub jvm_options: Seq<Seq<char>>,
}

pub open spec fn config_view(c: CONFIG) -> ConfigView {
    ConfigView {
        pre: views_of(c.pre@),
        bin: c.bin@,
        src: c.src@,
        test: c.test@,
        lib: c.lib@,
        classpath: c.classpath@,
        post: views_of(c.post@),
        comp_flags: c.comp_flags@,
        run_args: views_of(c.run_args@),
        cache: c.cache@,
        threads: c.threads as int,
        jvm_version: c.jvm_version,
        jvm_options: views_of(c.jvm_options@),
    }
}

/// A decimal digit.
pub open spec fn is_digit(c: char) -> bool {
    '0' as u32 <= c as u32 && c as u32 <= '9' as u32
}

/// The value of a digit.
pub open spec fn digit_val(c: char) -> int {
    c as u32 - '0' as u32
}

/// The value of a digit string, most significant digit first.
pub open spec fn dec_value(s: Seq<char>) -> int
    decreases s.len(),
{
    if s.len() == 0 {
        0
    } else {
        dec_value(s.drop_last()) * 10 + digit_val(s.last())
    }
}

/// The digits of a numeral, after its optional plus sign.
pub open spec fn numeral_body(s: Seq<char>) -> Seq<char> {
    if s.len() > 0 && s[0] == '+' {
        s.subrange(1, s.len() as int)
    } else {
        s
    }
}

/// Every character of `s` is a decimal digit.
pub open spec fn all_digits(s: Seq<char>) -> bool {
    forall|k: int| 0 <= k < s.len() ==> is_digit(#[trigger] s[k])
}

/// What parsing `s` as an unsigned count yields: its value when `s` is an
/// optional plus sign and then digits, and the value fits; nothing
/// otherwise.
pub open spec fn parse_usize_spec(s: Seq<char>) -> Option<int> {
    if numeral_body(s).len() > 0 && all_digits(numeral_body(s)) && dec_value(numeral_body(s))
        <= usize::MAX as int {
        Some(dec_value(numeral_body(s)))
    } else {
        None
    }
}

proof fn lemma_dec_value_bounds(s: Seq<char>)
    requires
        all_digits(s),
    ensures
        dec_value(s) >= 0,
        forall|j: int| 0 <= j <= s.len() ==> dec_value(s.subrange(0, j)) <= dec_value(s),
    decreases s.len(),
{
    if s.len() == 0 {
        assert forall|j: int| 0 <= j <= s.len() implies dec_value(s.subrange(0, j)) <= dec_value(
            s,
        ) by {
            assert(s.subrange(0, 0) =~= s);
        }
    } else {
        let pre = s.drop_last();
        assert(all_digits(pre)) by {
            assert(forall|k: int| 0 <= k < pre.len() ==> pre[k] == s[k]);
        }
        lemma_dec_value_bounds(pre);
        assert(dec_value(s) == dec_value(pre) * 10 + digit_val(s.last()));
        assert(dec_value(pre) * 10 >= dec_value(pre)) by {
            assert(dec_value(pre) >= 0);
        }
        assert forall|j: int| 0 <= j <= s.len() implies dec_value(s.subrange(0, j)) <= dec_value(
            s,
        ) by {
            if j < s.len() {
                assert(s.subrange(0, j) =~= pre.subrange(0, j));
            } else {
                assert(s.subrange(0, j) =~= s);
            }
        }
    }
}

/// Parses an unsigned count, as the `threads` key uses it.
pub fn parse_usize(s: &str) -> (r: Option<usize>)
    ensures
        r is Some <==> parse_usize_spec(s@) is Some,
        r is Some ==> r->Some_0 as int == parse_usize_spec(s@)->Some_0,
{
    let n = s.unicode_len();
    let start: usize = if n > 0 && s.get_char(0) == '+' {
        1
    } else {
        0
    };
    let ghost body = numeral_body(s@);
    proof {
        assert(body =~= s@.subrange(start as int, n as int));
    }
    if start == n {
        return None;
    }
    let mut v: usize = 0;
    let mut i: usize = start;
    proof {
        assert(body.subrange(0, 0) =~= Seq::<char>::empty());
    }
    while i < n
        invariant
            n == s@.len(),
            start <= i <= n,
            body == numeral_body(s@),
            body == s@.subrange(start as int, n as int),
            forall|k: int| 0 <= k < i - start ==> is_digit(#[trigger] body[k]),
            v as int == dec_value(body.subrange(0, i - start)),
        decreases n - i,
    {
        let c = s.get_char(i);
        let u = c as u32;
        if !('0' as u32 <= u && u <= '9' as u32) {
            proof {
                assert(body[i - start] == s@[i as int]);
                assert(!is_digit(body[i - start]));
                assert(!all_digits(body));
                assert(parse_usize_spec(s@) is None);
            }
            return None;
        }
        let d = (u - '0' as u32) as usize;
        let ghost pre = body.subrange(0, i - start);
        proof {
            assert(body.subrange(0, i - start + 1).drop_last() =~= pre);
            assert(body.subrange(0, i - start + 1).last() == s@[i as int]);
            assert(body[i - start] == s@[i as int]);
            assert(is_digit(body[i - start]));
            assert(d as int == digit_val(body[i - start]));
        }
        let m = match v.checked_mul(10) {
            Some(m) => m,
            None => {
                proof {
                    lemma_overflow(body, (i - start) as int, v as int, d as int);
                    assert(parse_usize_spec(s@) is None);
                }
                return None;
            },
        };
        let w = match m.checked_add(d) {
            Some(w) => w,
            None => {
                proof {
                    lemma_overflow(body, (i - start) as int, v as int, d as int);
                    assert(parse_usize_spec(s@) is None);
                }
                return None;
            },
        };
        v = w;
        i += 1;
    }
    proof {
        assert(body.subrange(0, n - start) =~= body);
    }
    Some(v)
}

/// When one prefix step of the numeral already exceeds the type's range,
/// the whole numeral does.
proof fn lemma_overflow(body: Seq<char>, j: int, v: int, d: int)
    requires
        0 <= j < body.len(),
        v == dec_value(body.subrange(0, j)),
        d == digit_val(body[j]),
        is_digit(body[j]),
        v * 10 + d > usize::MAX as int,
    ensures
        !all_digits(body) || dec_value(body) > usize::MAX as int,
{
    if all_digits(body) {
        lemma_dec_value_bounds(body);
        assert(body.subrange(0, j + 1).drop_last() =~= body.subrange(0, j));
        assert(body.subrange(0, j + 1).last() == body[j]);
        assert(dec_value(body.subrange(0, j + 1)) == v * 10 + d);
        assert(dec_value(body.subrange(0, j + 1)) <= dec_value(body));
    }
}

/// One item of an array value: trimmed, then stripped of quotes.
pub open spec fn clean_item(x: Seq<char>) -> Seq<char> {
    trim_spec(TrimClass::Quote, trim_spec(TrimClass::Space, x))
}

/// The items of an array value: the pieces between commas, each cleaned.
pub open spec fn items_of(s: Seq<char>) -> Seq<Seq<char>> {
    split_by(s, ',').map_values(|x: Seq<char>| clean_item(x))
}

/// Splits an array value at its commas and cleans each item.
fn split_items(s: &str) -> (r: Vec<String>)
    ensures
        views_of(r@) == items_of(s@),
{
    let parts = split_at_char(s, ',');
    let mut out: Vec<String> = Vec::new();
    let n = parts.len();
    let mut i: usize = 0;
    while i < n
        invariant
            n == parts@.len(),
            views_of(parts@) == split_by(s@, ','),
            i <= n,
            out@.len() == i,
            forall|k: int| 0 <= k < i ==> (#[trigger] out@[k])@ == clean_item(parts@[k]@),
        decreases n - i,
    {
        let trimmed = trim_while(parts[i].as_str(), TrimClass::Space);
        let cleaned = trim_while(trimmed.as_str(), TrimClass::Quote);
        out.push(cleaned);
        i += 1;
    }
    proof {
        assert(views_of(out@) =~~= items_of(s@));
    }
    out
}

/// The runtime version a configured token selects; anything unrecognised
/// selects the invalid version, which the runtime layer rejects.
pub open spec fn version_of(v: Seq<char>) -> JvmVersion {
    if v == "1"@ {
        JvmVersion::V1
    } else if v == "2"@ {
        JvmVersion::V2
    } else if v == "4"@ {
        JvmVersion::V4
    } else if v == "6"@ {
        JvmVersion::V6
    } else if v == "8"@ {
        JvmVersion::V8
    } else {
        JvmVersion::Invalid
    }
}

/// Applies one scalar key. An unknown key changes nothing and is
/// reported.
pub open spec fn apply_scalar(
    c: ConfigView,
    unknown: Seq<Seq<char>>,
    key: Seq<char>,
    val: Seq<char>,
) -> (ConfigView, Seq<Seq<char>>) {
    if key == "src"@ {
        (ConfigView { src: val, ..c }, unknown)
    } else if key == "bin"@ {
        (ConfigView { bin: val, ..c }, unknown)
    } else if key == "lib"@ {
        (ConfigView { lib: val, ..c }, unknown)
    } else if key == "test"@ {
        (ConfigView { test: val, ..c }, unknown)
    } else if key == "cache"@ {
        (ConfigView { cache: val, ..c }, unknown)
    } else if key == "classpath"@ {
        (ConfigView { classpath: val, ..c }, unknown)
    } else if key == "comp_flags"@ {
        (ConfigView { comp_flags: val, ..c }, unknown)
    } else if key == "jvm_version"@ {
        (ConfigView { jvm_version: version_of(val), ..c }, unknown)
    } else if key == "threads"@ {
        match parse_usize_spec(val) {
            Some(v) => (ConfigView { threads: v, ..c }, unknown),
            None => (c, unknown),
        }
    } else {
        (c, unknown.push(key))
    }
}

/// Applies one array key. An unknown key changes nothing and is
/// reported.
pub open spec fn apply_array(
    c: ConfigView,
    unknown: Seq<Seq<char>>,
    key: Seq<char>,
    items: Seq<Seq<char>>,
) -> (ConfigView, Seq<Seq<char>>) {
    if key == "pre"@ {
        (ConfigView { pre: items, ..c }, unknown)
    } else if key == "post"@ {
        (ConfigView { post: items, ..c }, unknown)
    } else if key == "jvm_options"@ {
        (ConfigView { jvm_options: items, ..c }, unknown)
    } else if key == "run_args"@ {
        (ConfigView { run_args: items, ..c }, unknown)
    } else {
        (c, unknown.push(key))
    }
}

/// The parser's state between lines: the configuration built so far, the
/// unknown keys reported so far, and — while a multi-line array is open —
/// its key and the items collected.
pub struct ParseView {
    pub config: ConfigView,
    pub unknown: Seq<Seq<char>>,
    pub open_key: Option<Seq<char>>,
    pub items: Seq<Seq<char>>,
}

/// One line of the configuration file. Blank lines and comments are
/// skipped; while an array is open its items are collected until a line
/// ends with a closing bracket; a `key = value` line assigns a scalar,
/// opens an array, or assigns a whole array; anything else is ignored.
pub open spec fn step_line(st: ParseView, raw: Seq<char>) -> ParseView {
    let line = trim_spec(TrimClass::Space, raw);
    if line.len() == 0 || line[0] == '#' {
        st
    } else if st.open_key is Some {
        if line.last() == ']' {
            let clean = trim_spec(TrimClass::Space, trim_end_spec(TrimClass::CloseBracket, line));
            let items = if clean.len() > 0 {
                st.items + items_of(clean)
            } else {
                st.items
            };
            let r = apply_array(st.config, st.unknown, st.open_key->Some_0, items);
            ParseView { config: r.0, unknown: r.1, open_key: None, items: Seq::empty() }
        } else {
            ParseView { items: st.items + items_of(line), ..st }
        }
    } else if crate::strutil::first_pos(line, '=') >= 0 {
        let p = crate::strutil::first_pos(line, '=');
        let key = trim_spec(TrimClass::Space, line.subrange(0, p));
        let value = trim_spec(
            TrimClass::Quote,
            trim_spec(TrimClass::Space, line.subrange(p + 1, line.len() as int)),
        );
        if value.len() > 0 && value[0] == '[' && value.last() != ']' {
            let first = trim_spec(TrimClass::Space, trim_start_spec(TrimClass::OpenBracket, value));
            let items = if first.len() > 0 {
                items_of(first)
            } else {
                Seq::empty()
            };
            ParseView { open_key: Some(key), items, ..st }
        } else if value.len() > 0 && value[0] == '[' && value.last() == ']' {
            let contents = value.subrange(1, value.len() - 1);
            let r = apply_array(st.config, st.unknown, key, items_of(contents));
            ParseView { config: r.0, unknown: r.1, ..st }
        } else {
            let r = apply_scalar(st.config, st.unknown, key, value);
            ParseView { config: r.0, unknown: r.1, ..st }
        }
    } else {
        st
    }
}

/// The parser's state after the given lines.
pub open spec fn run_lines(st: ParseView, lines: Seq<Seq<char>>) -> ParseView
    decreases lines.len(),
{
    if lines.len() == 0 {
        st
    } else {
        step_line(run_lines(st, lines.drop_last()), lines.last())
    }
}

/// What parsing a whole configuration text yields, starting from the
/// defaults: an array still open at the end of the text is dropped.
pub open spec fn parse_outcome(text: Seq<char>, defaults: ConfigView) -> ParseView {
    run_lines(
        ParseView {
            config: defaults,
            unknown: Seq::empty(),
            open_key: None,
            items: Seq::empty(),
        },
        split_by(text, '\n'),
    )
}

/// The parsed configuration, and every unrecognised key in order of
/// appearance, for the caller to warn about.
pub struct ParsedConfig {
    pub config: CONFIG,
    pub unknown_keys: Vec<String>,
}

fn apply_scalar_exec(conf: CONFIG, unknown: &mut Vec<String>, key: String, val: String) -> (r:
    CONFIG)
    ensures
        ({
            let s = apply_scalar(config_view(conf), views_of(old(unknown)@), key@, val@);
            config_view(r) == s.0 && views_of(final(unknown)@) == s.1
        }),
{
    let mut c = conf;
    if str_eq(key.as_str(), "src") {
        c.src = val;
    } else if str_eq(key.as_str(), "bin") {
        c.bin = val;
    } else if str_eq(key.as_str(), "lib") {
        c.lib = val;
    } else if str_eq(key.as_str(), "test") {
        c.test = val;
    } else if str_eq(key.as_str(), "cache") {
        c.cache = val;
    } else if str_eq(key.as_str(), "classpath") {
        c.classpath = val;
    } else if str_eq(key.as_str(), "comp_flags") {
        c.comp_flags = val;
    } else if str_eq(key.as_str(), "jvm_version") {
        c.jvm_version = if str_eq(val.as_str(), "1") {
            JvmVersion::V1
        } else if str_eq(val.as_str(), "2") {
            JvmVersion::V2
        } else if str_eq(val.as_str(), "4") {
            JvmVersion::V4
        } else if str_eq(val.as_str(), "6") {
            JvmVersion::V6
        } else if str_eq(val.as_str(), "8") {
            JvmVersion::V8
        } else {
            JvmVersion::Invalid
        };
    } else if str_eq(key.as_str(), "threads") {
        match parse_usize(val.as_str()) {
            Some(v) => {
                c.threads = v;
            },
            None => {},
        }
    } else {
        let ghost old_u = unknown@;
        unknown.push(key);
        proof {
            assert(views_of(unknown@) =~~= views_of(old_u).push(key@));
        }
    }
    c
}

fn apply_array_exec(conf: CONFIG, unknown: &mut Vec<String>, key: String, items: Vec<String>) -> (r:
    CONFIG)
    ensures
        ({
            let s = apply_array(config_view(conf), views_of(old(unknown)@), key@, views_of(items@));
            config_view(r) == s.0 && views_of(final(unknown)@) == s.1
        }),
{
    let mut c = conf;
    if str_eq(key.as_str(), "pre") {
        c.pre = items;
    } else if str_eq(key.as_str(), "post") {
        c.post = items;
    } else if str_eq(key.as_str(), "jvm_options") {
        c.jvm_options = items;
    } else if str_eq(key.as_str(), "run_args") {
        c.run_args = items;
    } else {
        let ghost old_u = unknown@;
        unknown.push(key);
        proof {
            assert(views_of(unknown@) =~~= views_of(old_u).push(key@));
        }
    }
    c
}

/// Parses a configuration text over the given defaults. Every recognised
/// `key = value` line, scalar or array, replaces the default; every
/// unrecognised key is returned for the caller to warn about; malformed
/// lines change nothing.
pub fn parse_file(text: &str, defaults: CONFIG) -> (r: ParsedConfig)
    ensures
        ({
            let end = parse_outcome(text@, config_view(defaults));
            &&& config_view(r.config) == end.config
            &&& views_of(r.unknown_keys@) == end.unknown
        }),
{
    let lines = split_at_char(text, '\n');
    let ghost lviews = split_by(text@, '\n');
    let ghost init = ParseView {
        config: config_view(defaults),
        unknown: Seq::empty(),
        open_key: None,
        items: Seq::empty(),
    };
    let mut conf = defaults;
    let mut unknown: Vec<String> = Vec::new();
    let mut open_key: Option<String> = None;
    let mut items: Vec<String> = Vec::new();
    let n = lines.len();
    let mut i: usize = 0;
    proof {
        assert(lviews.subrange(0, 0) =~~= Seq::<Seq<char>>::empty());
        assert(views_of(unknown@) =~~= Seq::<Seq<char>>::empty());
        assert(views_of(items@) =~~= Seq::<Seq<char>>::empty());
    }
    while i < n
        invariant
            n == lines@.len(),
            views_of(lines@) == lviews,
            i <= n,
            ({
                let st = run_lines(init, lviews.subrange(0, i as int));
                &&& config_view(conf) == st.config
                &&& views_of(unknown@) == st.unknown
                &&& (open_key is Some <==> st.open_key is Some)
                &&& open_key is Some ==> open_key->Some_0@ == st.open_key->Some_0
                &&& views_of(items@) == st.items
            }),
        decreases n - i,
    {
        let ghost st0 = run_lines(init, lviews.subrange(0, i as int));
        let ghost raw = lviews[i as int];
        proof {
            assert(lviews.subrange(0, i + 1).drop_last() =~~= lviews.subrange(0, i as int));
            assert(lviews.subrange(0, i + 1).last() == raw);
            assert(run_lines(init, lviews.subrange(0, i + 1)) == step_line(st0, raw));
        }
        let line = trim_while(lines[i].as_str(), TrimClass::Space);
        let ln = line.as_str().unicode_len();
        if ln == 0 || line.as_str().get_char(0) == '#' {
            // skipped: blank or comment
        } else {
            let is_open = open_key.is_some();
            if is_open {
                if line.as_str().get_char(ln - 1) == ']' {
                    let closed = trim_end_while(line.as_str(), TrimClass::CloseBracket);
                    let clean = trim_while(closed.as_str(), TrimClass::Space);
                    if !clean.as_str().is_empty() {
                        let mut fresh = split_items(clean.as_str());
                        let ghost old_items = items@;
                        items.append(&mut fresh);
                        proof {
                            assert(views_of(items@) =~~= views_of(old_items) + items_of(clean@));
                        }
                    }
                    let key = match open_key {
                        Some(k) => k,
                        None => String::new(),
                    };
                    let committed = items;
                    conf = apply_array_exec(conf, &mut unknown, key, committed);
                    open_key = None;
                    items = Vec::new();
                    proof {
                        assert(views_of(items@) =~~= Seq::<Seq<char>>::empty());
                    }
                } else {
                    let mut fresh = split_items(line.as_str());
                    let ghost old_items = items@;
                    items.append(&mut fresh);
                    proof {
                        assert(views_of(items@) =~~= views_of(old_items) + items_of(line@));
                    }
                }
            } else {
                // look for an assignment
                let mut eq_pos: usize = 0;
                let mut has_eq = false;
                let mut f: usize = 0;
                while f < ln
                    invariant
                        ln == line@.len(),
                        f <= ln,
                        has_eq ==> eq_pos < f && line@[eq_pos as int] == '='
                            && (forall|k: int| 0 <= k < eq_pos ==> line@[k] != '='),
                        !has_eq ==> (forall|k: int| 0 <= k < f ==> line@[k] != '='),
                    decreases ln - f,
                {
                    if !has_eq && line.as_str().get_char(f) == '=' {
                        has_eq = true;
                        eq_pos = f;
                    }
                    f += 1;
                }
                if has_eq {
                    proof {
                        crate::strutil::lemma_first_pos_at(line@, '=', eq_pos as int);
                    }
                    let key = trim_while(line.as_str().substring_char(0, eq_pos), TrimClass::Space);
                    let val_raw = trim_while(
                        line.as_str().substring_char(eq_pos + 1, ln),
                        TrimClass::Space,
                    );
                    let value = trim_while(val_raw.as_str(), TrimClass::Quote);
                    let vn = value.as_str().unicode_len();
                    if vn > 0 && value.as_str().get_char(0) == '[' && value.as_str().get_char(
                        vn - 1,
                    ) != ']' {
                        let unbracketed = trim_start_while(value.as_str(), TrimClass::OpenBracket);
                        let first = trim_while(unbracketed.as_str(), TrimClass::Space);
                        if !first.as_str().is_empty() {
                            items = split_items(first.as_str());
                        } else {
                            items = Vec::new();
                            proof {
                                assert(views_of(items@) =~~= Seq::<Seq<char>>::empty());
                            }
                        }
                        open_key = Some(key);
                    } else if vn > 0 && value.as_str().get_char(0) == '[' {
                        let contents = value.as_str().substring_char(1, vn - 1);
                        let fresh = split_items(contents);
                        conf = apply_array_exec(conf, &mut unknown, key, fresh);
                    } else {
                        conf = apply_scalar_exec(conf, &mut unknown, key, value);
                    }
                } else {
                    proof {
                        crate::strutil::lemma_first_pos_at(line@, '=', ln as int);
                    }
                }
            }
        }
        i += 1;
    }
    proof {
        assert(lviews.subrange(0, n as int) =~~= lviews);
    }
    ParsedConfig { config: conf, unknown_keys: unknown }
}

} // verus!
