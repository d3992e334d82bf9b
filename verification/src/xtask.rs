//! The plan of the project's test matrix: which cargo invocations run, with
//! which environment, on which machine.  Running them is left to the caller.
use vstd::prelude::*;

verus! {

/// The vector extensions that the machine running the tests supports.
#[derive(Debug, Clone, Copy, Default, PartialEq, Eq)]
pub struct CpuFeatures {
    pub sse2: bool,
    pub avx2: bool,
}

/// One cargo invocation: its arguments and the environment variables set
/// for it, in order.
#[derive(Debug, Clone, PartialEq, Eq)]
pub struct CargoStep {
    args: Vec<String>,
    env: Vec<(String, String)>,
}

/// What a `CargoStep` holds.
pub struct StepView {
    pub args: Seq<Seq<char>>,
    pub env: Seq<(Seq<char>, Seq<char>)>,
}

pub open spec fn pair_view(p: (String, String)) -> (Seq<char>, Seq<char>) {
    (p.0@, p.1@)
}

impl View for CargoStep {
    type V = StepView;

    closed spec fn view(&self) -> StepView {
        StepView {
            args: self.args@.map_values(|s: String| s@),
            env: self.env@.map_values(|p: (String, String)| pair_view(p)),
        }
    }
}

/// The step that runs the tests against the C implementation, compiled
/// with `cflags`.
pub open spec fn c_binding_view(cflags: Seq<char>) -> StepView {
    StepView {
        args: seq!["test"@, "--features=__intern_c_bindings"@],
        env: seq![("SHISHUA_C_DIR"@, "shishua"@), ("CFLAGS"@, cflags)],
    }
}

pub open spec fn scalar_cflags() -> Seq<char> {
    "-O3 -DSHISHUA_TARGET=SHISHUA_TARGET_SCALAR"@
}

pub open spec fn sse2_cflags() -> Seq<char> {
    "-O3 -DSHISHUA_TARGET=SHISHUA_TARGET_SSE2 -msse2 -mno-ssse3 -mno-avx -mno-avx2"@
}

pub open spec fn avx2_cflags() -> Seq<char> {
    "-O3 -DSHISHUA_TARGET=SHISHUA_TARGET_AVX2 -mavx2 -mtune=haswell"@
}

pub open spec fn neon_cflags() -> Seq<char> {
    "-O3 -DSHISHUA_TARGET=SHISHUA_TARGET_NEON"@
}

pub open spec fn is_x86_64(arch: Seq<char>) -> bool {
    arch == "x86_64"@ || arch == "amd64"@
}

pub open spec fn is_x86_32(arch: Seq<char>) -> bool {
    arch == "x86"@ || arch == "i386"@ || arch == "i486"@ || arch == "i586"@ || arch == "i686"@
}

pub open spec fn is_aarch64(arch: Seq<char>) -> bool {
    arch == "aarch64"@ || arch == "arm64"@
}

/// The plan: the Rust test suite with default features, without them, and
/// for the native CPU; then, where the C implementation is at hand, the
/// comparison against it compiled for the scalar target and for each vector
/// target that the architecture and CPU support.
pub open spec fn plan_view(arch: Seq<char>, has_c_bindings: bool, cpu: CpuFeatures) -> Seq<
    StepView,
> {
    let rust = seq![
        StepView { args: seq!["test"@], env: seq![] },
        StepView { args: seq!["test"@, "--no-default-features"@], env: seq![] },
        StepView { args: seq!["test"@], env: seq![("RUSTFLAGS"@, "-C target-cpu=native"@)] },
    ];
    if !has_c_bindings {
        rust
    } else {
        let with_scalar = rust.push(c_binding_view(scalar_cflags()));
        if is_x86_64(arch) {
            let p = with_scalar.push(c_binding_view(sse2_cflags()));
            if cpu.avx2 {
                p.push(c_binding_view(avx2_cflags()))
            } else {
                p
            }
        } else if is_x86_32(arch) {
            let p = if cpu.sse2 {
                with_scalar.push(c_binding_view(sse2_cflags()))
            } else {
                with_scalar
            };
            if cpu.avx2 {
                p.push(c_binding_view(avx2_cflags()))
            } else {
                p
            }
        } else if is_aarch64(arch) {
            with_scalar.push(c_binding_view(neon_cflags()))
        } else {
            with_scalar
        }
    }
}

/// Every plan starts with the three Rust checks; without the C
/// implementation that is all of it, and with it the scalar comparison comes
/// next, whatever the architecture.
pub proof fn lemma_plan_shape(arch: Seq<char>, has_c_bindings: bool, cpu: CpuFeatures)
    ensures
        ({
            let plan = plan_view(arch, has_c_bindings, cpu);
            let rust = plan_view(arch, false, cpu);
            &&& rust.len() == 3
            &&& plan.subrange(0, 3) == rust
            &&& !has_c_bindings ==> plan == rust
            &&& has_c_bindings ==> plan.len() >= 4 && plan[3] == c_binding_view(scalar_cflags())
        }),
{
    let plan = plan_view(arch, has_c_bindings, cpu);
    let rust = plan_view(arch, false, cpu);
    assert(plan.subrange(0, 3) =~= rust);
}

/// `arm64` is another name of `aarch64`: its plan is the same, and with the
/// C implementation it ends with the NEON comparison.
pub proof fn lemma_arm64_plan(has_c_bindings: bool, cpu: CpuFeatures)
    ensures
        plan_view("arm64"@, has_c_bindings, cpu) == plan_view("aarch64"@, has_c_bindings, cpu),
        has_c_bindings ==> plan_view("arm64"@, has_c_bindings, cpu).len() == 5,
        has_c_bindings ==> plan_view("arm64"@, has_c_bindings, cpu).last() == c_binding_view(
            neon_cflags(),
        ),
{
    reveal_strlit("arm64");
    reveal_strlit("aarch64");
    reveal_strlit("x86_64");
    reveal_strlit("amd64");
    reveal_strlit("x86");
    reveal_strlit("i386");
    reveal_strlit("i486");
    reveal_strlit("i586");
    reveal_strlit("i686");
    assert("arm64"@.len() == 5 && "aarch64"@.len() == 7 && "x86_64"@.len() == 6);
    assert("amd64"@.len() == 5 && "x86"@.len() == 3 && "i386"@.len() == 4);
    assert("i486"@.len() == 4 && "i586"@.len() == 4 && "i686"@.len() == 4);
    assert("arm64"@[1] != "amd64"@[1]);
    assert("arm64"@ != "amd64"@);
}

/// The C comparison steps for different targets differ.
proof fn lemma_cflags_distinct()
    ensures
        sse2_cflags() != avx2_cflags(),
        sse2_cflags() != scalar_cflags(),
        sse2_cflags() != neon_cflags(),
        avx2_cflags() != scalar_cflags(),
        avx2_cflags() != neon_cflags(),
{
    reveal_strlit("-O3 -DSHISHUA_TARGET=SHISHUA_TARGET_SCALAR");
    reveal_strlit("-O3 -DSHISHUA_TARGET=SHISHUA_TARGET_SSE2 -msse2 -mno-ssse3 -mno-avx -mno-avx2");
    reveal_strlit("-O3 -DSHISHUA_TARGET=SHISHUA_TARGET_AVX2 -mavx2 -mtune=haswell");
    reveal_strlit("-O3 -DSHISHUA_TARGET=SHISHUA_TARGET_NEON");
    assert(sse2_cflags().len() != avx2_cflags().len());
    assert(sse2_cflags().len() != scalar_cflags().len());
    assert(sse2_cflags().len() != neon_cflags().len());
    assert(avx2_cflags().len() != scalar_cflags().len());
    assert(avx2_cflags().len() != neon_cflags().len());
}

/// Every C comparison in a plan is for a target that the machine runs: the
/// AVX2 one only on x86 with AVX2, the SSE2 one only on x86 (on 32-bit x86
/// only with SSE2), the NEON one only on AArch64.  On 32-bit x86 with SSE2
/// the SSE2 comparison is there, and on 64-bit x86 always.
pub proof fn lemma_plan_targets_supported(
    arch: Seq<char>,
    has_c_bindings: bool,
    cpu: CpuFeatures,
    i: int,
)
    requires
        0 <= i < plan_view(arch, has_c_bindings, cpu).len(),
    ensures
        ({
            let plan = plan_view(arch, has_c_bindings, cpu);
            &&& plan[i] == c_binding_view(avx2_cflags()) ==> cpu.avx2 && (is_x86_64(arch)
                || is_x86_32(arch))
            &&& plan[i] == c_binding_view(sse2_cflags()) ==> is_x86_64(arch) || (is_x86_32(arch)
                && cpu.sse2)
            &&& plan[i] == c_binding_view(neon_cflags()) ==> is_aarch64(arch)
            &&& has_c_bindings && (is_x86_64(arch) || (is_x86_32(arch) && cpu.sse2))
                ==> plan.contains(c_binding_view(sse2_cflags()))
            &&& has_c_bindings && (is_x86_64(arch) || is_x86_32(arch)) && cpu.avx2
                ==> plan.contains(c_binding_view(avx2_cflags()))
        }),
{
    lemma_cflags_distinct();
    let plan = plan_view(arch, has_c_bindings, cpu);
    lemma_plan_shape(arch, has_c_bindings, cpu);
    let rust = plan_view(arch, false, cpu);
    let scalar = c_binding_view(scalar_cflags());
    let sse2 = c_binding_view(sse2_cflags());
    let avx2 = c_binding_view(avx2_cflags());
    let neon = c_binding_view(neon_cflags());
    assert(scalar.env[1].1 == scalar_cflags() && sse2.env[1].1 == sse2_cflags());
    assert(avx2.env[1].1 == avx2_cflags() && neon.env[1].1 == neon_cflags());
    assert(scalar.env.len() == 2 && sse2.env.len() == 2 && avx2.env.len() == 2);
    assert(neon.env.len() == 2);
    assert(rust[0].env.len() == 0 && rust[1].env.len() == 0 && rust[2].env.len() == 1);
    assert(sse2 != avx2 && sse2 != scalar && sse2 != neon && avx2 != scalar && avx2 != neon);
    assert(neon != scalar) by {
        reveal_strlit("-O3 -DSHISHUA_TARGET=SHISHUA_TARGET_SCALAR");
        reveal_strlit("-O3 -DSHISHUA_TARGET=SHISHUA_TARGET_NEON");
        assert(neon_cflags().len() != scalar_cflags().len());
    }
    if i < 3 {
        assert(plan[i] == rust[i]);
        assert(plan[i].env.len() < 2);
    }
    if has_c_bindings {
        let with_scalar = rust.push(scalar);
        if is_x86_64(arch) {
            let p = with_scalar.push(sse2);
            assert(plan[4] == sse2);
            if cpu.avx2 {
                assert(plan == p.push(avx2));
                assert(plan[5] == avx2);
            } else {
                assert(plan == p);
            }
        } else if is_x86_32(arch) {
            let p = if cpu.sse2 {
                with_scalar.push(sse2)
            } else {
                with_scalar
            };
            if cpu.sse2 {
                assert(plan[4] == sse2);
            }
            if cpu.avx2 {
                assert(plan == p.push(avx2));
                assert(plan[p.len() as int] == avx2);
            } else {
                assert(plan == p);
            }
        } else if is_aarch64(arch) {
            assert(plan == with_scalar.push(neon));
        } else {
            assert(plan == with_scalar);
        }
    }
}

/// Whether two strings are equal, character by character.
pub fn str_eq(a: &str, b: &str) -> (r: bool)
    ensures
        r == (a@ == b@),
{
    let n = a.unicode_len();
    if n != b.unicode_len() {
        return false;
    }
    let mut i: usize = 0;
    while i < n
        invariant
            i <= n,
            n == a@.len(),
            n == b@.len(),
            forall|k: int| 0 <= k < i ==> a@[k] == b@[k],
        decreases n - i,
    {
        if a.get_char(i) != b.get_char(i) {
            return false;
        }
        i = i + 1;
    }
    assert(a@ =~= b@);
    true
}

impl CargoStep {
    /// A step with the given arguments and no environment.
    pub fn new<const N: usize>(args: [&str; N]) -> (step: Self)
        ensures
            step@.args == args@.map_values(|s: &str| s@),
            step@.env == Seq::<(Seq<char>, Seq<char>)>::empty(),
    {
        let mut owned: Vec<String> = Vec::new();
        let mut i: usize = 0;
        while i < N
            invariant
                i <= N,
                args@.len() == N,
                owned@.len() == i,
                forall|k: int| 0 <= k < i ==> #[trigger] owned@[k]@ == args@[k]@,
            decreases N - i,
        {
            owned.push(String::from_str(args[i]));
            i = i + 1;
        }
        assert(owned@.map_values(|s: String| s@) =~= args@.map_values(|s: &str| s@));
        let step = Self { args: owned, env: Vec::new() };
        assert(step@.env =~= Seq::<(Seq<char>, Seq<char>)>::empty());
        step
    }

    /// The arguments passed to cargo.
    pub fn args(&self) -> (args: &Vec<String>)
        ensures
            args@.map_values(|s: String| s@) == self@.args,
    {
        &self.args
    }

    /// The environment variables set for cargo, in order.
    pub fn env(&self) -> (env: &Vec<(String, String)>)
        ensures
            env@.map_values(|p: (String, String)| pair_view(p)) == self@.env,
    {
        &self.env
    }

    /// The step with the variable `key` set to `value` as well.
    pub fn with_env(self, key: &str, value: &str) -> (step: Self)
        ensures
            step@.args == self@.args,
            step@.env == self@.env.push((key@, value@)),
    {
        let mut step = self;
        step.env.push((String::from_str(key), String::from_str(value)));
        assert(step@.env =~= self@.env.push((key@, value@)));
        step
    }
}

/// The step that runs the tests against the C implementation, compiled with
/// `cflags`.
pub fn c_binding_step(cflags: &str) -> (step: CargoStep)
    ensures
        step@ == c_binding_view(cflags@),
{
    let step = CargoStep::new(["test", "--features=__intern_c_bindings"]).with_env(
        "SHISHUA_C_DIR",
        "shishua",
    ).with_env("CFLAGS", cflags);
    assert(step@.args =~= c_binding_view(cflags@).args);
    assert(step@.env =~= c_binding_view(cflags@).env);
    step
}

/// The steps of the test matrix for a machine of architecture `arch`.
pub fn test_all_plan(arch: &str, has_c_bindings: bool, cpu_features: CpuFeatures) -> (plan: Vec<
    CargoStep,
>)
    ensures
        plan@.map_values(|s: CargoStep| s@) == plan_view(arch@, has_c_bindings, cpu_features),
{
    let mut plan: Vec<CargoStep> = Vec::new();
    let s0 = CargoStep::new(["test"]);
    let s1 = CargoStep::new(["test", "--no-default-features"]);
    let s2 = CargoStep::new(["test"]).with_env("RUSTFLAGS", "-C target-cpu=native");
    proof {
        assert(s0@.args =~= seq!["test"@]);
        assert(s1@.args =~= seq!["test"@, "--no-default-features"@]);
        assert(s2@.args =~= seq!["test"@]);
        assert(s2@.env =~= seq![("RUSTFLAGS"@, "-C target-cpu=native"@)]);
    }
    plan.push(s0);
    plan.push(s1);
    plan.push(s2);
    let ghost rust = plan_view(arch@, false, cpu_features);
    assert(plan@.map_values(|s: CargoStep| s@) =~= rust);

    if !has_c_bindings {
        return plan;
    }

    plan.push(c_binding_step("-O3 -DSHISHUA_TARGET=SHISHUA_TARGET_SCALAR"));

    if str_eq(arch, "x86_64") || str_eq(arch, "amd64") {
        plan.push(
            c_binding_step(
                "-O3 -DSHISHUA_TARGET=SHISHUA_TARGET_SSE2 -msse2 -mno-ssse3 -mno-avx -mno-avx2",
            ),
        );
        if cpu_features.avx2 {
            plan.push(
                c_binding_step("-O3 -DSHISHUA_TARGET=SHISHUA_TARGET_AVX2 -mavx2 -mtune=haswell"),
            );
        }
    } else if str_eq(arch, "x86") || str_eq(arch, "i386") || str_eq(arch, "i486") || str_eq(
        arch,
        "i586",
    ) || str_eq(arch, "i686") {
        if cpu_features.sse2 {
            plan.push(
                c_binding_step(
                    "-O3 -DSHISHUA_TARGET=SHISHUA_TARGET_SSE2 -msse2 -mno-ssse3 -mno-avx -mno-avx2",
                ),
            );
        }
        if cpu_features.avx2 {
            plan.push(
                c_binding_step("-O3 -DSHISHUA_TARGET=SHISHUA_TARGET_AVX2 -mavx2 -mtune=haswell"),
            );
        }
    } else if str_eq(arch, "aarch64") || str_eq(arch, "arm64") {
        plan.push(c_binding_step("-O3 -DSHISHUA_TARGET=SHISHUA_TARGET_NEON"));
    }
    assert(plan@.map_values(|s: CargoStep| s@) =~= plan_view(arch@, has_c_bindings, cpu_features));
    plan
}

/// Rust's `Debug` rendering of a string: the string in double quotes, with
/// quotes, backslashes and control characters escaped.
pub uninterp spec fn debug_quoted(s: Seq<char>) -> Seq<char>;

/// Renders `s` as `format!("{:?}", s)` does.  The contract names the result
/// without stating the escaping rules of `Debug`, which depend only on `s`.
#[verifier::external_body]
fn debug_quote(s: &str) -> (r: String)
    ensures
        r@ == debug_quoted(s@),
{
    format!("{:?}", s)
}

/// The text of the environment assignments: `KEY=value ` for each variable,
/// the values already quoted.
pub open spec fn env_text(env: Seq<(Seq<char>, Seq<char>)>, quoted: Seq<Seq<char>>) -> Seq<char>
    decreases env.len(),
{
    if env.len() == 0 {
        Seq::empty()
    } else {
        env_text(env.drop_last(), quoted.drop_last()) + env.last().0 + "="@ + quoted.last() + " "@
    }
}

/// The text of the arguments: ` arg` for each one.
pub open spec fn args_text(args: Seq<Seq<char>>) -> Seq<char>
    decreases args.len(),
{
    if args.len() == 0 {
        Seq::empty()
    } else {
        args_text(args.drop_last()) + " "@ + args.last()
    }
}

/// The command line of a step, as it is shown: the environment assignments,
/// `cargo`, then the arguments.
pub open spec fn step_text(v: StepView, quoted: Seq<Seq<char>>) -> Seq<char> {
    env_text(v.env, quoted) + "cargo"@ + args_text(v.args)
}

/// The values of the environment, each as `Debug` renders it.
pub open spec fn quoted_values(env: Seq<(Seq<char>, Seq<char>)>) -> Seq<Seq<char>> {
    env.map_values(|p: (Seq<char>, Seq<char>)| debug_quoted(p.1))
}

impl CargoStep {
    /// The command line of the step, with `quoted[i]` standing for the value
    /// of the `i`th environment variable.
    pub fn text_with_values(&self, quoted: &Vec<String>) -> (text: String)
        requires
            quoted@.len() == self@.env.len(),
        ensures
            text@ == step_text(self@, quoted@.map_values(|s: String| s@)),
    {
        let ghost v = self@;
        let ghost q = quoted@.map_values(|s: String| s@);
        let mut text = String::new();
        let mut i: usize = 0;
        while i < self.env.len()
            invariant
                i <= self.env@.len(),
                v == self@,
                q == quoted@.map_values(|s: String| s@),
                quoted@.len() == self.env@.len(),
                text@ == env_text(v.env.subrange(0, i as int), q.subrange(0, i as int)),
            decreases self.env@.len() - i,
        {
            text.append(self.env[i].0.as_str());
            text.append("=");
            text.append(quoted[i].as_str());
            text.append(" ");
            proof {
                let e = v.env.subrange(0, i + 1);
                let qq = q.subrange(0, i + 1);
                assert(e.drop_last() =~= v.env.subrange(0, i as int));
                assert(qq.drop_last() =~= q.subrange(0, i as int));
            }
            i = i + 1;
        }
        assert(v.env.subrange(0, i as int) =~= v.env);
        assert(q.subrange(0, i as int) =~= q);
        text.append("cargo");
        let ghost prefix = text@;
        let mut k: usize = 0;
        while k < self.args.len()
            invariant
                k <= self.args@.len(),
                v == self@,
                text@ == prefix + args_text(v.args.subrange(0, k as int)),
            decreases self.args@.len() - k,
        {
            text.append(" ");
            text.append(self.args[k].as_str());
            proof {
                assert(v.args.subrange(0, k + 1).drop_last() =~= v.args.subrange(0, k as int));
            }
            k = k + 1;
        }
        assert(v.args.subrange(0, k as int) =~= v.args);
        text
    }

    /// The command line of the step, as the task runner shows it: for
    /// example `CFLAGS="-O3" cargo test`.
    pub fn to_display_string(&self) -> (text: String)
        ensures
            text@ == step_text(self@, quoted_values(self@.env)),
    {
        let mut quoted: Vec<String> = Vec::new();
        let mut i: usize = 0;
        while i < self.env.len()
            invariant
                i <= self.env@.len(),
                quoted@.len() == i,
                forall|k: int| 0 <= k < i ==> #[trigger] quoted@[k]@ == debug_quoted(self.env@[k].1@),
            decreases self.env@.len() - i,
        {
            quoted.push(debug_quote(self.env[i].1.as_str()));
            i = i + 1;
        }
        assert(quoted@.map_values(|s: String| s@) =~= quoted_values(self@.env));
        self.text_with_values(&quoted)
    }
}

/// The commands that the task runner understands.
#[derive(Debug, Clone, Copy, PartialEq, Eq, Structural)]
pub enum Command {
    /// Run the whole test matrix.
    TestAll,
    /// Show how to use the task runner.
    Help,
}

/// What the task runner does with its arguments: `test-all` runs the test
/// matrix; `-h`, `--help` or no argument show the usage; anything else is
/// an unknown command.
pub open spec fn command_of(args: Seq<Seq<char>>) -> Result<Command, Seq<char>> {
    if args.len() > 0 && args[0] == "test-all"@ {
        Ok(Command::TestAll)
    } else if args.len() == 0 || args[0] == "-h"@ || args[0] == "--help"@ {
        Ok(Command::Help)
    } else {
        Err("unknown xtask command: "@ + args[0])
    }
}

/// Reads the task runner's arguments (the program name left out) into the
/// command to perform, or the message of an unknown command.
pub fn run(args: &Vec<String>) -> (r: Result<Command, String>)
    ensures
        match r {
            Ok(c) => command_of(args@.map_values(|s: String| s@)) == Ok::<Command, Seq<char>>(c),
            Err(msg) => command_of(args@.map_values(|s: String| s@)) == Err::<Command, Seq<char>>(
                msg@,
            ),
        },
{
    let ghost a = args@.map_values(|s: String| s@);
    if args.len() == 0 {
        return Ok(Command::Help);
    }
    let command = args[0].as_str();
    assert(command@ == a[0]);
    if str_eq(command, "test-all") {
        Ok(Command::TestAll)
    } else if str_eq(command, "-h") || str_eq(command, "--help") {
        Ok(Command::Help)
    } else {
        let mut msg = String::from_str("unknown xtask command: ");
        msg.append(command);
        Err(msg)
    }
}

} // verus!
