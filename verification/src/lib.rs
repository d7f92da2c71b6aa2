//! Dependency analysis of AdaCore's GPR project files.
pub mod strings;
pub mod tokens;
pub mod errors;
pub mod files;
pub mod qnames;
pub mod base_lexer;
pub mod ada_lexer;
pub mod cpp_lexer;
pub mod packagename;
pub mod simplename;
pub mod qualifiedname;
pub mod rawexpr;
pub mod paths;
pub mod settings;
pub mod rawgpr;
pub mod gpr_grammar;
pub mod gpr_scanner;
pub mod scenarios;
pub mod scenario_variables;
pub mod perscenario;
pub mod allscenarios;
pub mod values;
pub mod gpr;
pub mod sourcefile;
pub mod ada_scanner;
pub mod cpp_scanner;
pub mod graph;
pub mod findfile;
pub mod directory;
pub mod expressions;
pub mod units;
pub mod environment;
pub mod action_stats;
pub mod action_duplicates;
pub mod action_imported;
pub mod action_path;
pub mod action_importpath;
pub mod action_unused;
pub mod cli;
