use vstd::prelude::*;
use crate::resources::RenderError;

verus! {

/// The names under which shaders are loaded, each once. The `basic`
/// shader is there from the start.
pub struct ShaderTable {
    names: Vec<String>,
}

impl ShaderTable {
    /// The loaded names, in the order they were first loaded.
    pub closed spec fn names(&self) -> Seq<Seq<char>> {
        self.names@.map_values(|s: String| s@)
    }

    /// No name is loaded twice.
    pub open spec fn wf(&self) -> bool {
        self.names().no_duplicates()
    }

    pub fn new() -> (t: Self)
        ensures
            t.wf(),
            t.names() == seq!["basic"@],
    {
        let mut names: Vec<String> = Vec::new();
        names.push("basic".to_owned());
        let t = ShaderTable { names };
        assert(t.names() =~= seq!["basic"@]);
        t
    }

    /// The position of `shader` among the loaded names, if it is loaded.
    fn position(&self, shader: &str) -> (r: Option<usize>)
        ensures
            match r {
                Some(i) => i < self.names().len() && self.names()[i as int] == shader@,
                None => !self.names().contains(shader@),
            },
    {
        let wanted: String = shader.to_owned();
        let mut i: usize = 0;
        while i < self.names.len()
            invariant
                i <= self.names@.len(),
                wanted@ == shader@,
                forall|j: int| 0 <= j < i ==> self.names()[j] != shader@,
            decreases self.names@.len() - i,
        {
            if self.names[i] == wanted {
                return Some(i);
            }
            i = i + 1;
        }
        None
    }

    /// Loads a shader under `shader_name`; a shader loaded under that name
    /// before is replaced, so the name stays once in the table.
    pub fn load_shader(&mut self, shader_name: &str)
        requires
            old(self).wf(),
        ensures
            final(self).wf(),
            final(self).names() == (if old(self).names().contains(shader_name@) {
                old(self).names()
            } else {
                old(self).names().push(shader_name@)
            }),
    {
        match self.position(shader_name) {
            Some(_) => {},
            None => {
                self.names.push(shader_name.to_owned());
                assert(self.names() =~= old(self).names().push(shader_name@));
            },
        }
    }

    /// Binds the shader named `shader` for drawing: it must have been
    /// loaded, else `ShaderNotFound` names it.
    pub fn bind_shader(&self, shader: &str) -> (r: Result<(), RenderError>)
        ensures
            r is Ok <==> self.names().contains(shader@),
            r is Err ==> (r matches Err(RenderError::ShaderNotFound { shader: s }) && s@ == shader@),
    {
        match self.position(shader) {
            Some(_) => Ok(()),
            None => Err(RenderError::ShaderNotFound { shader: shader.to_owned() }),
        }
    }
}

} // verus!
