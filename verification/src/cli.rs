pub mod subcommands;
