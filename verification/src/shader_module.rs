use vstd::prelude::*;
use vstd::string::StringExecFns;

verus! {

broadcast use vstd::string::group_string_axioms;

/// The separator placed between two consecutive shader modules.
pub open spec fn module_separator() -> Seq<char> {
    seq!['\n', '\n']
}

/// The modules joined in order, consecutive ones separated by a blank line.
pub open spec fn joined_source(modules: Seq<Seq<char>>) -> Seq<char>
    decreases modules.len(),
{
    if modules.len() == 0 {
        Seq::empty()
    } else if modules.len() == 1 {
        modules[0]
    } else {
        joined_source(modules.drop_last()) + module_separator() + modules.last()
    }
}

/// Adding a module to a non-empty list extends the combined source by a blank
/// line and the module; added to an empty list, the module is the whole source.
pub proof fn lemma_joined_source_push(modules: Seq<Seq<char>>, code: Seq<char>)
    ensures
        joined_source(modules.push(code)) == if modules.len() == 0 {
            code
        } else {
            joined_source(modules) + module_separator() + code
        },
{
    assert(modules.push(code).drop_last() =~= modules);
}

/// Collects WGSL source modules that are compiled together as one shader.
pub struct ShaderModuleBuilder {
    modules: Vec<String>,
}

impl View for ShaderModuleBuilder {
    type V = Seq<Seq<char>>;

    /// The source text of each module, in the order they were added.
    closed spec fn view(&self) -> Seq<Seq<char>> {
        self.modules@.map_values(|m: String| m@)
    }
}

impl ShaderModuleBuilder {
    /// A builder holding no module.
    pub fn new() -> (b: Self)
        ensures
            b@ == Seq::<Seq<char>>::empty(),
    {
        let b = Self { modules: Vec::new() };
        assert(b@ =~= Seq::<Seq<char>>::empty());
        b
    }

    /// Appends one module after those already added.
    pub fn add_module(&mut self, code: &str) -> (r: &mut Self)
        ensures
            r@ == old(self)@.push(code@),
            *final(self) == *final(r),
    {
        let s = code.to_string();
        self.modules.push(s);
        assert(self@ =~= old(self)@.push(code@));
        self
    }

    /// The combined source: every module in order, separated by a blank line.
    pub fn combined_source(&self) -> (src: String)
        ensures
            src@ == joined_source(self@),
    {
        let mut res = String::new();
        let n = self.modules.len();
        let mut i: usize = 0;
        while i < n
            invariant
                n == self.modules@.len(),
                i <= n,
                res@ == joined_source(self@.take(i as int)),
            decreases n - i,
        {
            if i != 0 {
                let sep = "\n\n";
                proof {
                    reveal_strlit("\n\n");
                }
                res.append(sep);
            }
            res.append(self.modules[i].as_str());
            assert(self@.take(i + 1).drop_last() =~= self@.take(i as int));
            i = i + 1;
        }
        assert(self@.take(n as int) =~= self@);
        res
    }
}

} // verus!
