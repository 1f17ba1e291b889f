use crate::color::{frame_bytes, unpack_colors, Color};
use vstd::prelude::*;

verus! {

/// A script effect that cannot be used.
#[derive(Clone, Copy, Debug, PartialEq, Eq, Structural)]
pub enum InvalidEffectError {
    /// The script declares no `SettingsSchema` table.
    MissingSchema,
    /// The declared schema does not compile.
    InvalidSchema,
}

/// What a script's `Colors_bin` must hold for a segment of `count` LEDs.
pub enum ScriptColorsError {
    /// Not three bytes per LED.
    WrongColorsLen,
}

/// The suffix of a module search pattern.
pub open spec fn module_pattern() -> Seq<u8> {
    seq![63u8, 46u8, 108u8, 117u8, 97u8]
}

/// The interpreter's module search path once `root` is appended to `current`:
/// a `;`, the root, a `/` unless the path already ends with one, then `?.lua`.
pub open spec fn lua_search_path(current: Seq<u8>, root: Seq<u8>) -> Seq<u8> {
    let joined = current + seq![59u8] + root;
    if joined.last() == 47u8 {
        joined + module_pattern()
    } else {
        joined + seq![47u8] + module_pattern()
    }
}

/// Keeps where script effects and their shared modules live.
pub struct LuaEffectsManager {
    package_root: String,
}

impl LuaEffectsManager {
    /// A manager for scripts under `package_root`.
    pub fn new(package_root: String) -> (m: LuaEffectsManager)
        ensures
            m.package_root()@ == package_root@,
    {
        LuaEffectsManager { package_root }
    }

    /// The folder that holds the scripts and their modules.
    pub closed spec fn package_root(&self) -> String {
        self.package_root
    }

    /// The folder that holds the scripts and their modules.
    pub fn root(&self) -> (r: &String)
        ensures
            r@ == self.package_root()@,
    {
        &self.package_root
    }

    /// A script file changed. Script effects keep no shared library, so there
    /// is nothing to drop: each effect is read again when it is reloaded.
    pub fn on_file_changed(&mut self, file: &String)
        ensures
            final(self).package_root() == old(self).package_root(),
    {
    }

    /// The module search path to give an interpreter whose path is `current`,
    /// so that scripts find the modules under the package root.
    pub fn search_path(&self, current: &Vec<u8>) -> (r: Vec<u8>)
        ensures
            r@ == lua_search_path(current@, vstd::utf8::encode_utf8(self.package_root()@)),
    {
        let root = self.package_root.as_str().as_bytes();
        let mut r: Vec<u8> = Vec::new();
        let mut i: usize = 0;
        while i < current.len()
            invariant
                i <= current.len(),
                r@ == current@.take(i as int),
            decreases current.len() - i,
        {
            r.push(current[i]);
            proof {
                assert(r@ =~= current@.take(i + 1));
            }
            i = i + 1;
        }
        proof {
            assert(current@.take(current.len() as int) =~= current@);
        }
        r.push(59u8);
        let ghost start = r@;
        let mut j: usize = 0;
        while j < root.len()
            invariant
                j <= root@.len(),
                r@ == start + root@.take(j as int),
            decreases root@.len() - j,
        {
            r.push(root[j]);
            proof {
                assert(r@ =~= start + root@.take(j + 1));
            }
            j = j + 1;
        }
        proof {
            assert(root@.take(root@.len() as int) =~= root@);
            assert(r@ =~= current@ + seq![59u8] + root@);
        }
        if r[r.len() - 1] != 47u8 {
            r.push(47u8);
        }
        r.push(63u8);
        r.push(46u8);
        r.push(108u8);
        r.push(117u8);
        r.push(97u8);
        proof {
            assert(r@ =~= lua_search_path(current@, root@));
        }
        r
    }
}

/// Reads the colours that a script left in its `Colors_bin` string for a
/// segment of `count` LEDs. Fails unless there are three bytes per LED.
pub fn script_colors(data: &Vec<u8>, count: usize) -> (r: Result<Vec<Color>, ScriptColorsError>)
    ensures
        r is Ok <==> data@.len() == 3 * count,
        r matches Ok(v) ==> v@.len() == count && frame_bytes(v@) == data@,
{
    match unpack_colors(data, count) {
        Some(v) => Ok(v),
        None => Err(ScriptColorsError::WrongColorsLen),
    }
}

} // verus!
