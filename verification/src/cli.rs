//! Command-line text.

use vstd::prelude::*;

verus! {

/// The usage text of the command-line tool.
pub open spec fn usage_spec() -> Seq<char> {
    "usage: kado <command> [args]

commands:
  version                                    show version
  selftest                                   minimal SDF evaluation check
  export     [scene.json] <out.stl|.glb|.3mf|.html>
                                             export mesh (format by extension)
  screenshot [scene.json] <out.png> [view]   render PNG screenshot
  run        <scene.json> [resolution]       show mesh statistics
  check      <scene.json> [min_wall_mm] [max_overhang_deg] [resolution]
                                             DFM validation
  mcp                                        start MCP server (stdio)
  help                                       show this message

running with no command prints the version."@
}

/// The list of commands and their arguments shown by `help`.
pub fn usage_text() -> (s: &'static str)
    ensures
        s@ == usage_spec(),
{
    "usage: kado <command> [args]

commands:
  version                                    show version
  selftest                                   minimal SDF evaluation check
  export     [scene.json] <out.stl|.glb|.3mf|.html>
                                             export mesh (format by extension)
  screenshot [scene.json] <out.png> [view]   render PNG screenshot
  run        <scene.json> [resolution]       show mesh statistics
  check      <scene.json> [min_wall_mm] [max_overhang_deg] [resolution]
                                             DFM validation
  mcp                                        start MCP server (stdio)
  help                                       show this message

running with no command prints the version."
}

} // verus!
