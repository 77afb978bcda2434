#!/bin/sh
# Builds the program with the number of commits in the repository as the minor
# part of its version. CHRONOSUB_COMMIT_COUNT, where it is set, takes its place.
if count=$(git rev-list --count HEAD 2>/dev/null); then
    CHRONOSUB_REPOSITORY_COUNT="$count"
    export CHRONOSUB_REPOSITORY_COUNT
fi
exec cargo build --release "$@"
