pub mod graph;
pub mod mapper;
pub mod obj;
pub mod symbols;

pub use graph::DepEntry;
pub use graph::DepMap;
pub use graph::needed_libraries;
pub use obj::dependency_map;
pub use obj::extract_object;
pub use mapper::FileSyms;
pub use symbols::MemberSyms;
pub use symbols::SymInfo;
