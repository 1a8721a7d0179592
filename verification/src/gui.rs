use crate::bytestr::{
    append_bytes, ascii_bytes, bytes_equal, contains_bytes, contains_seq, copy_range, dec_digits,
    lemma_run_start_at, push_decimal, run_start, split_ws_tokens, str_bytes, ws_tokens,
};
use crate::selection::{parse_usize, spec_parse_usize};
use vstd::prelude::*;

verus! {

// ---------- progress reports ----------

/// One progress report for the desktop front end.
pub struct HardeningProgress {
    pub stage: Vec<u8>,
    pub progress: u8,
    pub message: Vec<u8>,
}

/// Mathematical model of a progress report.
#[verifier::ext_equal]
pub ghost struct ProgressModel {
    pub stage: Seq<u8>,
    pub progress: u8,
    pub message: Seq<u8>,
}

impl View for HardeningProgress {
    type V = ProgressModel;

    open spec fn view(&self) -> ProgressModel {
        ProgressModel { stage: self.stage@, progress: self.progress, message: self.message@ }
    }
}

/// Mirror of `u8` decimal parsing: an optional `+`, digits, value at most
/// 255.
pub open spec fn spec_parse_u8(s: Seq<u8>) -> Option<u8> {
    match spec_parse_usize(s) {
        Some(v) => if v <= 255 {
            Some(v as u8)
        } else {
            None
        },
        None => None,
    }
}

/// The percentage a token carries: its digits before a trailing `%`.
pub open spec fn spec_token_percent(tok: Seq<u8>) -> Option<u8> {
    if tok.len() >= 1 && tok.last() == 0x25 {
        spec_parse_u8(tok.drop_last())
    } else {
        None
    }
}

/// Clamp a reported percentage into the progress band.
pub open spec fn spec_clamp_percent(v: u8) -> u8 {
    if v < 5 {
        5
    } else if v > 30 {
        30
    } else {
        v
    }
}

/// The progress value of the first token from `k` on that carries a
/// percentage, clamped; 5 when none does.
pub open spec fn spec_percent_from(toks: Seq<Seq<u8>>, k: int) -> u8
    decreases toks.len() - k,
{
    if k < 0 || k >= toks.len() {
        5
    } else {
        match spec_token_percent(toks[k]) {
            Some(v) => spec_clamp_percent(v),
            None => spec_percent_from(toks, k + 1),
        }
    }
}

/// The third whitespace token of `s`, or the fallback word.
pub open spec fn spec_file_token(s: Seq<u8>) -> Seq<u8> {
    if ws_tokens(s).len() > 2 {
        ws_tokens(s)[2]
    } else {
        ascii_bytes("dependency"@)
    }
}

/// What one line of pipeline output reports, if anything: the toolchain
/// download patterns first, then the phase table, first matching needle
/// wins.
pub open spec fn spec_parse_progress(out: Seq<u8>) -> Option<ProgressModel> {
    if contains_seq(out, ascii_bytes("[toolchain] download-start"@)) {
        Some(
            ProgressModel {
                stage: ascii_bytes("init"@),
                progress: 3,
                message: ascii_bytes("Downloading dependency: "@) + spec_file_token(out),
            },
        )
    } else if contains_seq(out, ascii_bytes("[toolchain] download-progress"@)) {
        Some(
            ProgressModel {
                stage: ascii_bytes("init"@),
                progress: spec_percent_from(ws_tokens(out), 0),
                message: ascii_bytes("Downloading "@) + spec_file_token(out) + ascii_bytes(" ("@)
                    + dec_digits(spec_percent_from(ws_tokens(out), 0) as nat) + ascii_bytes("%)"@),
            },
        )
    } else if contains_seq(out, ascii_bytes("[toolchain] download-retry"@)) {
        Some(
            ProgressModel {
                stage: ascii_bytes("init"@),
                progress: 6,
                message: ascii_bytes("Network unstable, retrying dependency download..."@),
            },
        )
    } else if contains_seq(out, ascii_bytes("[toolchain] download-done"@)) {
        Some(
            ProgressModel {
                stage: ascii_bytes("init"@),
                progress: 30,
                message: ascii_bytes("Dependency ready: "@) + spec_file_token(out),
            },
        )
    } else if contains_seq(out, ascii_bytes("Starting hardening process"@)) {
        Some(
            ProgressModel {
                stage: ascii_bytes("init"@),
                progress: 1,
                message: ascii_bytes("Starting hardening process..."@),
            },
        )
    } else if contains_seq(out, ascii_bytes("Decoding target APK with apktool"@)) {
        Some(
            ProgressModel {
                stage: ascii_bytes("building"@),
                progress: 32,
                message: ascii_bytes("Decoding target APK..."@),
            },
        )
    } else if contains_seq(out, ascii_bytes("Rebuilding decoded APK with apktool"@)) {
        Some(
            ProgressModel {
                stage: ascii_bytes("building"@),
                progress: 45,
                message: ascii_bytes("Rebuilding patched manifest..."@),
            },
        )
    } else if contains_seq(out, ascii_bytes("Building Shell"@)) {
        Some(
            ProgressModel {
                stage: ascii_bytes("building"@),
                progress: 35,
                message: ascii_bytes("Building shell..."@),
            },
        )
    } else if contains_seq(out, ascii_bytes("Detected AAB file"@)) {
        Some(
            ProgressModel {
                stage: ascii_bytes("init"@),
                progress: 5,
                message: ascii_bytes("Detected AAB file..."@),
            },
        )
    } else if contains_seq(out, ascii_bytes("Converting AAB"@)) {
        Some(
            ProgressModel {
                stage: ascii_bytes("building"@),
                progress: 10,
                message: ascii_bytes("Converting AAB to APK..."@),
            },
        )
    } else if contains_seq(out, ascii_bytes("Building Packer"@)) {
        Some(
            ProgressModel {
                stage: ascii_bytes("building"@),
                progress: 20,
                message: ascii_bytes("Building packer..."@),
            },
        )
    } else if contains_seq(out, ascii_bytes("Phase 1"@)) {
        Some(
            ProgressModel {
                stage: ascii_bytes("packing"@),
                progress: 70,
                message: ascii_bytes("Generating payload..."@),
            },
        )
    } else if contains_seq(out, ascii_bytes("Phase 2"@)) {
        Some(
            ProgressModel {
                stage: ascii_bytes("packing"@),
                progress: 80,
                message: ascii_bytes("Final packing..."@),
            },
        )
    } else if contains_seq(out, ascii_bytes("Signing"@)) {
        Some(
            ProgressModel {
                stage: ascii_bytes("signing"@),
                progress: 90,
                message: ascii_bytes("Signing..."@),
            },
        )
    } else if contains_seq(out, ascii_bytes("Done!"@)) {
        Some(
            ProgressModel {
                stage: ascii_bytes("done"@),
                progress: 100,
                message: ascii_bytes("Done!"@),
            },
        )
    } else {
        None
    }
}

/// Parse a decimal `u8`, accepting an optional leading `+`.
pub fn parse_u8(s: &[u8]) -> (r: Option<u8>)
    ensures
        r == spec_parse_u8(s@),
{
    match parse_usize(s) {
        Some(v) => if v <= 255 {
            Some(v as u8)
        } else {
            None
        },
        None => None,
    }
}

/// The third whitespace token of a line, or the fallback word.
fn file_token(s: &[u8]) -> (r: Vec<u8>)
    ensures
        r@ == spec_file_token(s@),
{
    proof {
        reveal_strlit("dependency");
    }
    let toks = split_ws_tokens(s);
    if toks.len() > 2 {
        proof {
            assert(toks.deep_view()[2] == toks@[2]@);
        }
        copy_range(toks[2].as_slice(), 0, toks[2].len())
    } else {
        str_bytes("dependency")
    }
}

/// The clamped percentage of the first `%`-carrying token, or 5.
#[verifier::loop_isolation(false)]
fn percent_of_tokens(toks: &Vec<Vec<u8>>) -> (r: u8)
    ensures
        r == spec_percent_from(toks.deep_view(), 0),
{
    let n = toks.len();
    let mut k: usize = 0;
    while k < n
        invariant
            0 <= k <= n,
            n == toks@.len(),
            spec_percent_from(toks.deep_view(), 0) == spec_percent_from(toks.deep_view(), k as int),
        decreases n - k,
    {
        let tok = &toks[k];
        proof {
            assert(toks.deep_view()[k as int] == toks@[k as int]@);
        }
        if tok.len() >= 1 && tok[tok.len() - 1] == 0x25 {
            let digits = copy_range(tok.as_slice(), 0, tok.len() - 1);
            proof {
                assert(digits@ =~= toks.deep_view()[k as int].drop_last());
            }
            match parse_u8(digits.as_slice()) {
                Some(v) => {
                    if v < 5 {
                        return 5;
                    } else if v > 30 {
                        return 30;
                    } else {
                        return v;
                    }
                },
                None => {},
            }
        }
        k += 1;
    }
    5
}

/// Turn one line of pipeline output into a progress report, when the line
/// matches a known pattern.
pub fn parse_progress(output: &[u8]) -> (r: Option<HardeningProgress>)
    ensures
        match r {
            Some(p) => spec_parse_progress(output@) == Some(p@),
            None => spec_parse_progress(output@) is None,
        },
{
    proof {
        reveal_strlit("[toolchain] download-start");
        reveal_strlit("[toolchain] download-progress");
        reveal_strlit("[toolchain] download-retry");
        reveal_strlit("[toolchain] download-done");
        reveal_strlit("init");
        reveal_strlit("building");
        reveal_strlit("packing");
        reveal_strlit("signing");
        reveal_strlit("done");
        reveal_strlit("Downloading dependency: ");
        reveal_strlit("Downloading ");
        reveal_strlit(" (");
        reveal_strlit("%)");
        reveal_strlit("Network unstable, retrying dependency download...");
        reveal_strlit("Dependency ready: ");
        reveal_strlit("Starting hardening process");
        reveal_strlit("Starting hardening process...");
        reveal_strlit("Decoding target APK with apktool");
        reveal_strlit("Decoding target APK...");
        reveal_strlit("Rebuilding decoded APK with apktool");
        reveal_strlit("Rebuilding patched manifest...");
        reveal_strlit("Building Shell");
        reveal_strlit("Building shell...");
        reveal_strlit("Detected AAB file");
        reveal_strlit("Detected AAB file...");
        reveal_strlit("Converting AAB");
        reveal_strlit("Converting AAB to APK...");
        reveal_strlit("Building Packer");
        reveal_strlit("Building packer...");
        reveal_strlit("Phase 1");
        reveal_strlit("Generating payload...");
        reveal_strlit("Phase 2");
        reveal_strlit("Final packing...");
        reveal_strlit("Signing");
        reveal_strlit("Signing...");
        reveal_strlit("Done!");
    }
    let start_needle = str_bytes("[toolchain] download-start");
    let progress_needle = str_bytes("[toolchain] download-progress");
    let retry_needle = str_bytes("[toolchain] download-retry");
    let done_needle = str_bytes("[toolchain] download-done");
    if contains_bytes(output, start_needle.as_slice()) {
        let file = file_token(output);
        let mut message = str_bytes("Downloading dependency: ");
        append_bytes(&mut message, file.as_slice());
        return Some(
            HardeningProgress { stage: str_bytes("init"), progress: 3, message },
        );
    }
    if contains_bytes(output, progress_needle.as_slice()) {
        let toks = split_ws_tokens(output);
        let progress = percent_of_tokens(&toks);
        let file = file_token(output);
        let mut message = str_bytes("Downloading ");
        append_bytes(&mut message, file.as_slice());
        let open_paren = str_bytes(" (");
        append_bytes(&mut message, open_paren.as_slice());
        push_decimal(&mut message, progress as usize);
        let close = str_bytes("%)");
        append_bytes(&mut message, close.as_slice());
        proof {
            assert(message@ =~= ascii_bytes("Downloading "@) + spec_file_token(output@)
                + ascii_bytes(" ("@) + dec_digits(
                spec_percent_from(ws_tokens(output@), 0) as nat,
            ) + ascii_bytes("%)"@));
        }
        return Some(
            HardeningProgress { stage: str_bytes("init"), progress, message },
        );
    }
    if contains_bytes(output, retry_needle.as_slice()) {
        return Some(
            HardeningProgress {
                stage: str_bytes("init"),
                progress: 6,
                message: str_bytes("Network unstable, retrying dependency download..."),
            },
        );
    }
    if contains_bytes(output, done_needle.as_slice()) {
        let file = file_token(output);
        let mut message = str_bytes("Dependency ready: ");
        append_bytes(&mut message, file.as_slice());
        return Some(
            HardeningProgress { stage: str_bytes("init"), progress: 30, message },
        );
    }
    let n1 = str_bytes("Starting hardening process");
    if contains_bytes(output, n1.as_slice()) {
        return Some(
            HardeningProgress {
                stage: str_bytes("init"),
                progress: 1,
                message: str_bytes("Starting hardening process..."),
            },
        );
    }
    let n2 = str_bytes("Decoding target APK with apktool");
    if contains_bytes(output, n2.as_slice()) {
        return Some(
            HardeningProgress {
                stage: str_bytes("building"),
                progress: 32,
                message: str_bytes("Decoding target APK..."),
            },
        );
    }
    let n3 = str_bytes("Rebuilding decoded APK with apktool");
    if contains_bytes(output, n3.as_slice()) {
        return Some(
            HardeningProgress {
                stage: str_bytes("building"),
                progress: 45,
                message: str_bytes("Rebuilding patched manifest..."),
            },
        );
    }
    let n4 = str_bytes("Building Shell");
    if contains_bytes(output, n4.as_slice()) {
        return Some(
            HardeningProgress {
                stage: str_bytes("building"),
                progress: 35,
                message: str_bytes("Building shell..."),
            },
        );
    }
    let n5 = str_bytes("Detected AAB file");
    if contains_bytes(output, n5.as_slice()) {
        return Some(
            HardeningProgress {
                stage: str_bytes("init"),
                progress: 5,
                message: str_bytes("Detected AAB file..."),
            },
        );
    }
    let n6 = str_bytes("Converting AAB");
    if contains_bytes(output, n6.as_slice()) {
        return Some(
            HardeningProgress {
                stage: str_bytes("building"),
                progress: 10,
                message: str_bytes("Converting AAB to APK..."),
            },
        );
    }
    let n7 = str_bytes("Building Packer");
    if contains_bytes(output, n7.as_slice()) {
        return Some(
            HardeningProgress {
                stage: str_bytes("building"),
                progress: 20,
                message: str_bytes("Building packer..."),
            },
        );
    }
    let n8 = str_bytes("Phase 1");
    if contains_bytes(output, n8.as_slice()) {
        return Some(
            HardeningProgress {
                stage: str_bytes("packing"),
                progress: 70,
                message: str_bytes("Generating payload..."),
            },
        );
    }
    let n9 = str_bytes("Phase 2");
    if contains_bytes(output, n9.as_slice()) {
        return Some(
            HardeningProgress {
                stage: str_bytes("packing"),
                progress: 80,
                message: str_bytes("Final packing..."),
            },
        );
    }
    let n10 = str_bytes("Signing");
    if contains_bytes(output, n10.as_slice()) {
        return Some(
            HardeningProgress {
                stage: str_bytes("signing"),
                progress: 90,
                message: str_bytes("Signing..."),
            },
        );
    }
    let n11 = str_bytes("Done!");
    if contains_bytes(output, n11.as_slice()) {
        return Some(
            HardeningProgress {
                stage: str_bytes("done"),
                progress: 100,
                message: str_bytes("Done!"),
            },
        );
    }
    None
}


// ---------- packing arguments ----------

/// The front end's hardening request, as plain values.
pub struct HardeningConfig {
    pub input_file: Vec<u8>,
    pub output_file: Vec<u8>,
    pub output_format: Vec<u8>,
    pub keep_classes: Vec<Vec<u8>>,
    pub keep_prefixes: Vec<Vec<u8>>,
    pub keep_libs: Vec<Vec<u8>>,
    pub encrypt_assets: Vec<Vec<u8>>,
    pub skip_build: bool,
    pub skip_sign: bool,
    pub use_debug: bool,
    pub keystore: Option<Vec<u8>>,
    pub password: Option<Vec<u8>>,
    pub alias: Option<Vec<u8>>,
}

/// Mathematical model of a hardening request.
#[verifier::ext_equal]
pub ghost struct ConfigModel {
    pub input_file: Seq<u8>,
    pub output_file: Seq<u8>,
    pub output_format: Seq<u8>,
    pub keep_classes: Seq<Seq<u8>>,
    pub keep_prefixes: Seq<Seq<u8>>,
    pub keep_libs: Seq<Seq<u8>>,
    pub encrypt_assets: Seq<Seq<u8>>,
    pub skip_build: bool,
    pub skip_sign: bool,
    pub use_debug: bool,
    pub keystore: Option<Seq<u8>>,
    pub password: Option<Seq<u8>>,
    pub alias: Option<Seq<u8>>,
}

impl View for HardeningConfig {
    type V = ConfigModel;

    open spec fn view(&self) -> ConfigModel {
        ConfigModel {
            input_file: self.input_file@,
            output_file: self.output_file@,
            output_format: self.output_format@,
            keep_classes: self.keep_classes.deep_view(),
            keep_prefixes: self.keep_prefixes.deep_view(),
            keep_libs: self.keep_libs.deep_view(),
            encrypt_assets: self.encrypt_assets.deep_view(),
            skip_build: self.skip_build,
            skip_sign: self.skip_sign,
            use_debug: self.use_debug,
            keystore: match self.keystore {
                Some(v) => Some(v@),
                None => None,
            },
            password: match self.password {
                Some(v) => Some(v@),
                None => None,
            },
            alias: match self.alias {
                Some(v) => Some(v@),
                None => None,
            },
        }
    }
}

/// One repeated flag: `flag value` for each of the first `k` values.
pub open spec fn spec_flag_pairs(flag: Seq<u8>, items: Seq<Seq<u8>>, k: int) -> Seq<Seq<u8>>
    decreases k,
{
    if k <= 0 {
        Seq::empty()
    } else {
        spec_flag_pairs(flag, items, k - 1) + seq![flag, items[k - 1]]
    }
}

/// One optional flag: `flag value` when the value is given.
pub open spec fn spec_opt_pair(flag: Seq<u8>, v: Option<Seq<u8>>) -> Seq<Seq<u8>> {
    match v {
        Some(s) => seq![flag, s],
        None => Seq::empty(),
    }
}

/// The exact argument list handed to the packaging script: the script path,
/// target, output and format, the signing flags unless the debug keystore is
/// used, the repeated keep and asset flags, and the skip switches.
pub open spec fn spec_pack_args(script: Seq<u8>, c: ConfigModel) -> Seq<Seq<u8>> {
    seq![
        script,
        ascii_bytes("--target"@),
        c.input_file,
        ascii_bytes("--output"@),
        c.output_file,
        ascii_bytes("--output-format"@),
        c.output_format,
    ] + (if !c.use_debug {
        spec_opt_pair(ascii_bytes("--keystore"@), c.keystore) + spec_opt_pair(
            ascii_bytes("--ks-pass"@),
            c.password,
        ) + spec_opt_pair(ascii_bytes("--key-alias"@), c.alias)
    } else {
        Seq::empty()
    }) + spec_flag_pairs(ascii_bytes("--keep-class"@), c.keep_classes, c.keep_classes.len() as int)
        + spec_flag_pairs(
        ascii_bytes("--keep-prefix"@),
        c.keep_prefixes,
        c.keep_prefixes.len() as int,
    ) + spec_flag_pairs(ascii_bytes("--keep-lib"@), c.keep_libs, c.keep_libs.len() as int)
        + spec_flag_pairs(
        ascii_bytes("--encrypt-asset"@),
        c.encrypt_assets,
        c.encrypt_assets.len() as int,
    ) + (if c.skip_build {
        seq![ascii_bytes("--skip-build"@)]
    } else {
        Seq::empty()
    }) + (if c.skip_sign {
        seq![ascii_bytes("--no-sign"@)]
    } else {
        Seq::empty()
    })
}

fn copy_bytes(v: &Vec<u8>) -> (r: Vec<u8>)
    ensures
        r@ == v@,
{
    let r = copy_range(v.as_slice(), 0, v.len());
    proof {
        assert(r@ =~= v@);
    }
    r
}

#[verifier::loop_isolation(false)]
fn push_flag_pairs(args: &mut Vec<Vec<u8>>, flag: &Vec<u8>, items: &Vec<Vec<u8>>)
    ensures
        final(args).deep_view() == old(args).deep_view() + spec_flag_pairs(
            flag@,
            items.deep_view(),
            items.deep_view().len() as int,
        ),
{
    let ghost base = old(args).deep_view();
    let n = items.len();
    proof {
        assert(args.deep_view() =~~= base + spec_flag_pairs(flag@, items.deep_view(), 0));
    }
    let mut i: usize = 0;
    while i < n
        invariant
            0 <= i <= n,
            n == items@.len(),
            args.deep_view() == base + spec_flag_pairs(flag@, items.deep_view(), i as int),
        decreases n - i,
    {
        let ghost before = args.deep_view();
        args.push(copy_bytes(flag));
        proof {
            assert(items.deep_view()[i as int] == items@[i as int]@);
        }
        args.push(copy_bytes(&items[i]));
        proof {
            assert(args.deep_view() =~~= before + seq![flag@, items.deep_view()[i as int]]);
            assert(args.deep_view() =~~= base + spec_flag_pairs(
                flag@,
                items.deep_view(),
                i + 1,
            ));
        }
        i += 1;
    }
}

/// Assemble the packaging script's argument list from a hardening request.
pub fn build_pack_args(script: &[u8], config: &HardeningConfig) -> (r: Vec<Vec<u8>>)
    ensures
        r.deep_view() == spec_pack_args(script@, config@),
{
    proof {
        reveal_strlit("--target");
        reveal_strlit("--output");
        reveal_strlit("--output-format");
        reveal_strlit("--keystore");
        reveal_strlit("--ks-pass");
        reveal_strlit("--key-alias");
        reveal_strlit("--keep-class");
        reveal_strlit("--keep-prefix");
        reveal_strlit("--keep-lib");
        reveal_strlit("--encrypt-asset");
        reveal_strlit("--skip-build");
        reveal_strlit("--no-sign");
    }
    let mut args: Vec<Vec<u8>> = Vec::new();
    let script_copy = copy_range(script, 0, script.len());
    proof {
        assert(script_copy@ =~= script@);
    }
    args.push(script_copy);
    args.push(str_bytes("--target"));
    args.push(copy_bytes(&config.input_file));
    args.push(str_bytes("--output"));
    args.push(copy_bytes(&config.output_file));
    args.push(str_bytes("--output-format"));
    args.push(copy_bytes(&config.output_format));
    let ghost fixed = seq![
        script@,
        ascii_bytes("--target"@),
        config@.input_file,
        ascii_bytes("--output"@),
        config@.output_file,
        ascii_bytes("--output-format"@),
        config@.output_format,
    ];
    proof {
        assert(args.deep_view() =~~= fixed);
    }
    if !config.use_debug {
        match &config.keystore {
            Some(ks) => {
                args.push(str_bytes("--keystore"));
                args.push(copy_bytes(ks));
            },
            None => {},
        }
        match &config.password {
            Some(pw) => {
                args.push(str_bytes("--ks-pass"));
                args.push(copy_bytes(pw));
            },
            None => {},
        }
        match &config.alias {
            Some(al) => {
                args.push(str_bytes("--key-alias"));
                args.push(copy_bytes(al));
            },
            None => {},
        }
    }
    let ghost signing = if !config@.use_debug {
        spec_opt_pair(ascii_bytes("--keystore"@), config@.keystore) + spec_opt_pair(
            ascii_bytes("--ks-pass"@),
            config@.password,
        ) + spec_opt_pair(ascii_bytes("--key-alias"@), config@.alias)
    } else {
        Seq::<Seq<u8>>::empty()
    };
    proof {
        assert(args.deep_view() =~~= fixed + signing);
    }
    let kc_flag = str_bytes("--keep-class");
    push_flag_pairs(&mut args, &kc_flag, &config.keep_classes);
    let kp_flag = str_bytes("--keep-prefix");
    push_flag_pairs(&mut args, &kp_flag, &config.keep_prefixes);
    let kl_flag = str_bytes("--keep-lib");
    push_flag_pairs(&mut args, &kl_flag, &config.keep_libs);
    let ea_flag = str_bytes("--encrypt-asset");
    push_flag_pairs(&mut args, &ea_flag, &config.encrypt_assets);
    if config.skip_build {
        args.push(str_bytes("--skip-build"));
    }
    if config.skip_sign {
        args.push(str_bytes("--no-sign"));
    }
    proof {
        assert(args.deep_view() =~~= spec_pack_args(script@, config@));
    }
    args
}


// ---------- Java environment fallbacks ----------

/// The pieces of a `PATH`-like string: maximal runs between `:` separators,
/// with empty pieces dropped.
pub open spec fn colon_tokens(s: Seq<u8>) -> Seq<Seq<u8>>
    decreases s.len(),
    via colon_tokens_dec
{
    if s.len() == 0 {
        Seq::empty()
    } else if s[0] == 0x3a {
        colon_tokens(s.skip(1))
    } else {
        let tl = run_start(s, |b: u8| b != 0x3a) as int;
        seq![s.take(tl)] + colon_tokens(s.skip(tl))
    }
}

proof fn colon_run_le(s: Seq<u8>)
    ensures
        run_start(s, |b: u8| b != 0x3a) <= s.len(),
    decreases s.len(),
{
    if s.len() > 0 && s[0] != 0x3a {
        colon_run_le(s.skip(1));
    }
}

#[via_fn]
proof fn colon_tokens_dec(s: Seq<u8>) {
    if s.len() > 0 && s[0] != 0x3a {
        colon_run_le(s);
    }
}

/// Split a `PATH`-like string on `:`, dropping empty pieces.
#[verifier::loop_isolation(false)]
pub fn split_colon_tokens(s: &[u8]) -> (r: Vec<Vec<u8>>)
    ensures
        r.deep_view() == colon_tokens(s@),
{
    let ghost p = |b: u8| b != 0x3a;
    let n = s.len();
    let mut r: Vec<Vec<u8>> = Vec::new();
    proof {
        assert(r.deep_view() =~= Seq::<Seq<u8>>::empty());
        assert(s@.skip(0) =~= s@);
    }
    let mut i: usize = 0;
    while i < n
        invariant
            n == s@.len(),
            0 <= i <= n,
            colon_tokens(s@) == r.deep_view() + colon_tokens(s@.skip(i as int)),
        decreases n - i,
    {
        if s[i] == 0x3a {
            proof {
                let rest = s@.skip(i as int);
                assert(rest[0] == s@[i as int]);
                assert(rest.skip(1) =~= s@.skip(i + 1));
            }
            i += 1;
        } else {
            let start = i;
            let mut j = i + 1;
            while j < n && s[j] != 0x3a
                invariant
                    start < j <= n,
                    forall|t: int| start < t < j ==> s@[t] != 0x3a,
                decreases n - j,
            {
                j += 1;
            }
            let tok = copy_range(s, start, j);
            r.push(tok);
            proof {
                let rest = s@.skip(start as int);
                assert forall|t: int| 0 <= t < j - start implies p(rest[t]) by {
                    assert(rest[t] == s@[t + start]);
                }
                if j < n {
                    assert(rest[j - start] == s@[j as int]);
                }
                lemma_run_start_at(rest, p, j - start);
                assert(rest.take(j - start) =~= s@.subrange(start as int, j as int));
                assert(rest.skip(j - start) =~= s@.skip(j as int));
                assert(colon_tokens(rest) == seq![s@.subrange(start as int, j as int)]
                    + colon_tokens(s@.skip(j as int)));
                assert(r.deep_view() =~~= (r.deep_view().drop_last()) + seq![
                    s@.subrange(start as int, j as int),
                ]);
                assert((r.deep_view().drop_last() + seq![s@.subrange(start as int, j as int)])
                    + colon_tokens(s@.skip(j as int)) =~~= r.deep_view().drop_last()
                    + colon_tokens(s@.skip(start as int)));
            }
            i = j;
        }
    }
    proof {
        assert(s@.skip(n as int) =~= Seq::<u8>::empty());
        assert(r.deep_view() + Seq::<Seq<u8>>::empty() =~= r.deep_view());
    }
    r
}

/// The first `k` entries with every occurrence of `p` removed.
pub open spec fn spec_drop_equal(entries: Seq<Seq<u8>>, p: Seq<u8>, k: int) -> Seq<Seq<u8>>
    decreases k,
{
    if k <= 0 {
        Seq::empty()
    } else {
        let pre = spec_drop_equal(entries, p, k - 1);
        if entries[k - 1] == p {
            pre
        } else {
            pre + seq![entries[k - 1]]
        }
    }
}

/// The base list with each of the first `k` candidates appended unless it is
/// already present.
pub open spec fn spec_append_missing(base: Seq<Seq<u8>>, cands: Seq<Seq<u8>>, k: int) -> Seq<
    Seq<u8>,
>
    decreases k,
{
    if k <= 0 {
        base
    } else {
        let pre = spec_append_missing(base, cands, k - 1);
        if pre.contains(cands[k - 1]) {
            pre
        } else {
            pre + seq![cands[k - 1]]
        }
    }
}

/// The search-path list after the Java fallback policy: the preferred tool
/// directory moved to the front, the current entries with duplicates of it
/// removed, then every present candidate directory not already listed.
pub open spec fn spec_java_path_entries(
    current: Seq<Seq<u8>>,
    preferred: Option<Seq<u8>>,
    dir_candidates: Seq<Seq<u8>>,
) -> Seq<Seq<u8>> {
    let base = match preferred {
        Some(p) => seq![p] + spec_drop_equal(current, p, current.len() as int),
        None => current,
    };
    spec_append_missing(base, dir_candidates, dir_candidates.len() as int)
}

#[verifier::loop_isolation(false)]
fn list_contains(list: &Vec<Vec<u8>>, item: &Vec<u8>) -> (r: bool)
    ensures
        r == list.deep_view().contains(item@),
{
    let n = list.len();
    let mut i: usize = 0;
    while i < n
        invariant
            0 <= i <= n,
            n == list@.len(),
            forall|j: int| 0 <= j < i ==> list.deep_view()[j] != item@,
        decreases n - i,
    {
        proof {
            assert(list.deep_view()[i as int] == list@[i as int]@);
        }
        if bytes_equal(list[i].as_slice(), item.as_slice()) {
            proof {
                assert(list.deep_view()[i as int] == item@);
            }
            return true;
        }
        i += 1;
    }
    proof {
        assert forall|j: int| 0 <= j < list.deep_view().len() implies list.deep_view()[j]
            != item@ by {}
    }
    false
}

/// Rebuild the tool search path for the packaging subprocess: split the
/// current `PATH`, put the preferred Java directory first and drop its other
/// occurrences, and append every existing candidate directory not already
/// listed. The caller supplies which candidates exist; this function decides
/// the order.
#[verifier::loop_isolation(false)]
pub fn java_path_entries(
    current_path: &[u8],
    preferred: &Option<Vec<u8>>,
    dir_candidates: &Vec<Vec<u8>>,
) -> (r: Vec<Vec<u8>>)
    ensures
        r.deep_view() == spec_java_path_entries(
            colon_tokens(current_path@),
            match preferred {
                Some(p) => Some(p@),
                None => None,
            },
            dir_candidates.deep_view(),
        ),
{
    let current = split_colon_tokens(current_path);
    let ghost cur = current.deep_view();
    let mut base: Vec<Vec<u8>> = Vec::new();
    match preferred {
        Some(p) => {
            base.push(copy_bytes(p));
            proof {
                assert(base.deep_view() =~~= seq![p@] + spec_drop_equal(cur, p@, 0));
            }
            let n = current.len();
            let mut i: usize = 0;
            while i < n
                invariant
                    0 <= i <= n,
                    n == current@.len(),
                    cur == current.deep_view(),
                    base.deep_view() == seq![p@] + spec_drop_equal(cur, p@, i as int),
                decreases n - i,
            {
                proof {
                    assert(cur[i as int] == current@[i as int]@);
                }
                if !bytes_equal(current[i].as_slice(), p.as_slice()) {
                    let ghost before = base.deep_view();
                    base.push(copy_bytes(&current[i]));
                    proof {
                        assert(base.deep_view() =~~= before + seq![cur[i as int]]);
                        assert(base.deep_view() =~~= seq![p@] + spec_drop_equal(
                            cur,
                            p@,
                            i + 1,
                        ));
                    }
                } else {
                    proof {
                        assert(base.deep_view() =~~= seq![p@] + spec_drop_equal(
                            cur,
                            p@,
                            i + 1,
                        ));
                    }
                }
                i += 1;
            }
        },
        None => {
            let n = current.len();
            let mut i: usize = 0;
            while i < n
                invariant
                    0 <= i <= n,
                    n == current@.len(),
                    cur == current.deep_view(),
                    base.deep_view() == cur.take(i as int),
                decreases n - i,
            {
                let ghost before = base.deep_view();
                base.push(copy_bytes(&current[i]));
                proof {
                    assert(cur[i as int] == current@[i as int]@);
                    assert(base.deep_view() =~~= before + seq![cur[i as int]]);
                    assert(base.deep_view() =~~= cur.take(i + 1));
                }
                i += 1;
            }
            proof {
                assert(cur.take(n as int) =~= cur);
            }
        },
    }
    let ghost base0 = base.deep_view();
    let m = dir_candidates.len();
    let mut k: usize = 0;
    while k < m
        invariant
            0 <= k <= m,
            m == dir_candidates@.len(),
            base.deep_view() == spec_append_missing(base0, dir_candidates.deep_view(), k as int),
        decreases m - k,
    {
        proof {
            assert(dir_candidates.deep_view()[k as int] == dir_candidates@[k as int]@);
        }
        if !list_contains(&base, &dir_candidates[k]) {
            let ghost before = base.deep_view();
            base.push(copy_bytes(&dir_candidates[k]));
            proof {
                assert(base.deep_view() =~~= before + seq![dir_candidates.deep_view()[k as int]]);
                assert(base.deep_view() =~~= spec_append_missing(
                    base0,
                    dir_candidates.deep_view(),
                    k + 1,
                ));
            }
        } else {
            proof {
                assert(base.deep_view() =~~= spec_append_missing(
                    base0,
                    dir_candidates.deep_view(),
                    k + 1,
                ));
            }
        }
        k += 1;
    }
    base
}

/// Join path entries with `:` separators, in order.
pub open spec fn spec_joined_path(entries: Seq<Seq<u8>>, k: int) -> Seq<u8>
    decreases k,
{
    if k <= 0 {
        Seq::empty()
    } else if k == 1 {
        entries[0]
    } else {
        spec_joined_path(entries, k - 1) + seq![0x3au8] + entries[k - 1]
    }
}

/// Render a path entry list as one `:`-joined string.
#[verifier::loop_isolation(false)]
pub fn join_path_entries(entries: &Vec<Vec<u8>>) -> (r: Vec<u8>)
    ensures
        r@ == spec_joined_path(entries.deep_view(), entries.deep_view().len() as int),
{
    let mut r: Vec<u8> = Vec::new();
    let n = entries.len();
    proof {
        assert(r@ =~= spec_joined_path(entries.deep_view(), 0));
    }
    let mut i: usize = 0;
    while i < n
        invariant
            0 <= i <= n,
            n == entries@.len(),
            r@ == spec_joined_path(entries.deep_view(), i as int),
        decreases n - i,
    {
        proof {
            assert(entries.deep_view()[i as int] == entries@[i as int]@);
        }
        if i > 0 {
            r.push(0x3a);
        }
        append_bytes(&mut r, entries[i].as_slice());
        proof {
            assert(r@ =~= spec_joined_path(entries.deep_view(), i + 1));
        }
        i += 1;
    }
    r
}

} // verus!
